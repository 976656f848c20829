//! The chunk scanner: documents are read in `>`-terminated chunks, and a
//! section of a document is tracked by a flag that its opening marker
//! sets and its closing marker clears.
//!
//! Three scans use it: the export-file settings that the GraphQL service
//! answers with (the merchant ids and the YML category ids), the category
//! list of a feed (a category is kept when its id is one of those YML ids),
//! and the offer list of a feed.
use vstd::prelude::*;
use crate::bytes::{
    ascii, chunk_end, chunks, chunks_from, contains_bytes, copy_range, ends_with, from_first_lt,
    first_index_of, has_prefix, has_suffix, lemma_chunk_end, lemma_first_index_of, lit,
    next_chunk_end, starts_with, tag_part,
};

verus! {

// ------------------------------------------------------------ the chunks

proof fn lemma_chunks_next(s: Seq<u8>, pos: int)
    requires
        0 <= pos < s.len(),
    ensures
        chunks_from(s, pos) == seq![s.subrange(pos, chunk_end(s, pos))] + chunks_from(
            s,
            chunk_end(s, pos),
        ),
{
    lemma_chunk_end(s, pos);
}

proof fn lemma_chunks_done(s: Seq<u8>)
    ensures
        chunks_from(s, s.len() as int) == Seq::<Seq<u8>>::empty(),
{
}

// ------------------------------------------------------------- byte sets

/// The byte strings that a vector holds.
pub open spec fn byte_set(v: Seq<Vec<u8>>) -> Set<Seq<u8>> {
    Set::new(|x: Seq<u8>| exists|i: int| 0 <= i < v.len() && #[trigger] v[i]@ == x)
}

/// No byte string occurs twice.
pub open spec fn distinct(v: Seq<Vec<u8>>) -> bool {
    forall|i: int, j: int| 0 <= i < j < v.len() ==> #[trigger] v[i]@ != #[trigger] v[j]@
}

/// Adds `x` to the set held by `v`, unless it is there already.
fn insert_bytes(v: &mut Vec<Vec<u8>>, x: Vec<u8>)
    requires
        distinct(old(v)@),
    ensures
        distinct(final(v)@),
        byte_set(final(v)@) == byte_set(old(v)@).insert(x@),
{
    if contains_bytes(v, x.as_slice()) {
        assert(byte_set(v@) =~= byte_set(v@).insert(x@));
    } else {
        let ghost xv = x@;
        v.push(x);
        assert forall|i: int, j: int| 0 <= i < j < v@.len() implies #[trigger] v@[i]@
            != #[trigger] v@[j]@ by {
            if j == v@.len() - 1 {
                assert(old(v)@[i]@ != xv);
            } else {
                assert(old(v)@[i]@ != old(v)@[j]@);
            }
        }
        assert forall|y: Seq<u8>| #[trigger] byte_set(v@).contains(y) == byte_set(
            old(v)@,
        ).insert(xv).contains(y) by {
            if byte_set(v@).contains(y) {
                let i = choose|i: int| 0 <= i < v@.len() && #[trigger] v@[i]@ == y;
                if i < old(v)@.len() {
                    assert(old(v)@[i]@ == y);
                }
            }
            if byte_set(old(v)@).contains(y) {
                let i = choose|i: int| 0 <= i < old(v)@.len() && #[trigger] old(v)@[i]@ == y;
                assert(v@[i]@ == y);
            }
            if y == xv {
                assert(v@[v@.len() - 1]@ == y);
            }
        }
        assert(byte_set(v@) =~= byte_set(old(v)@).insert(xv));
    }
}

// ------------------------------------------------ the settings response

pub open spec fn id_open() -> Seq<u8> {
    ascii("<id"@)
}

pub open spec fn id_close() -> Seq<u8> {
    ascii("</id>"@)
}

pub open spec fn yml_id_open() -> Seq<u8> {
    ascii("<ymlId"@)
}

pub open spec fn yml_id_close() -> Seq<u8> {
    ascii("</ymlId>"@)
}

/// Where the scan of the settings response stands.
pub struct SettingsView {
    /// Inside an `id` element.
    pub id: bool,
    /// Inside a `ymlId` element.
    pub yml_id: bool,
    /// The merchant ids met so far.
    pub ids: Set<Seq<u8>>,
    /// The YML category ids met so far.
    pub yml_ids: Set<Seq<u8>>,
}

/// The text of a chunk before its closing marker.
pub open spec fn text_before(buf: Seq<u8>, close: Seq<u8>) -> Seq<u8> {
    buf.take(buf.len() - close.len())
}

/// One chunk of the settings response.
pub open spec fn settings_chunk(st: SettingsView, buf: Seq<u8>) -> SettingsView {
    let p1 = from_first_lt(buf);
    let id_on = st.id || has_prefix(p1, id_open());
    let id_done = id_on && has_suffix(buf, id_close());
    let yml_on = st.yml_id || has_prefix(p1, yml_id_open());
    let yml_done = yml_on && has_suffix(buf, yml_id_close());
    SettingsView {
        id: id_on && !id_done,
        yml_id: yml_on && !yml_done,
        ids: if id_done {
            st.ids.insert(text_before(buf, id_close()))
        } else {
            st.ids
        },
        yml_ids: if yml_done {
            st.yml_ids.insert(text_before(buf, yml_id_close()))
        } else {
            st.yml_ids
        },
    }
}

/// The scan of a settings response made of these chunks.
pub open spec fn settings_run(cs: Seq<Seq<u8>>) -> SettingsView
    decreases cs.len(),
{
    if cs.len() == 0 {
        SettingsView { id: false, yml_id: false, ids: Set::empty(), yml_ids: Set::empty() }
    } else {
        settings_chunk(settings_run(cs.drop_last()), cs.last())
    }
}

/// What the scan of the settings response found.
pub struct Settings {
    /// The scan ended inside an `id` element.
    pub id: bool,
    /// The scan ended inside a `ymlId` element.
    pub yml_id: bool,
    /// The merchant ids, each once.
    pub ids: Vec<Vec<u8>>,
    /// The YML category ids, each once.
    pub yml_ids: Vec<Vec<u8>>,
}

impl View for Settings {
    type V = SettingsView;

    open spec fn view(&self) -> SettingsView {
        SettingsView {
            id: self.id,
            yml_id: self.yml_id,
            ids: byte_set(self.ids@),
            yml_ids: byte_set(self.yml_ids@),
        }
    }
}

impl Settings {
    pub open spec fn wf(&self) -> bool {
        distinct(self.ids@) && distinct(self.yml_ids@)
    }
}

fn settings_chunk_exec(st: &mut Settings, buf: &[u8])
    requires
        old(st).wf(),
    ensures
        final(st).wf(),
        final(st)@ == settings_chunk(old(st)@, buf@),
{
    proof {
        reveal_strlit("<id");
        reveal_strlit("</id>");
        reveal_strlit("<ymlId");
        reveal_strlit("</ymlId>");
    }
    let p1 = tag_part(buf);
    let close = lit("</id>");
    if st.id || starts_with(p1.as_slice(), lit("<id")) {
        st.id = true;
        if ends_with(buf, close) {
            st.id = false;
            let text = copy_range(buf, 0, buf.len() - close.len());
            insert_bytes(&mut st.ids, text);
        }
    }
    let close = lit("</ymlId>");
    if st.yml_id || starts_with(p1.as_slice(), lit("<ymlId")) {
        st.yml_id = true;
        if ends_with(buf, close) {
            st.yml_id = false;
            let text = copy_range(buf, 0, buf.len() - close.len());
            insert_bytes(&mut st.yml_ids, text);
        }
    }
}

/// Scans the answer of the settings service: the text of each `id`
/// element and of each `ymlId` element is collected.
pub fn scan_settings(body: &[u8]) -> (r: Settings)
    ensures
        r.wf(),
        r@ == settings_run(chunks(body@)),
{
    let mut st = Settings { id: false, yml_id: false, ids: Vec::new(), yml_ids: Vec::new() };
    let mut pos: usize = 0;
    let ghost mut done: Seq<Seq<u8>> = Seq::empty();
    proof {
        assert(st@.ids =~= Set::<Seq<u8>>::empty());
        assert(st@.yml_ids =~= Set::<Seq<u8>>::empty());
        assert(done + chunks_from(body@, 0) =~= chunks(body@));
    }
    while pos < body.len()
        invariant
            pos <= body.len(),
            st.wf(),
            st@ == settings_run(done),
            done + chunks_from(body@, pos as int) == chunks(body@),
        decreases body.len() - pos,
    {
        let end = next_chunk_end(body, pos);
        let chunk = copy_range(body, pos, end);
        proof {
            lemma_chunks_next(body@, pos as int);
        }
        settings_chunk_exec(&mut st, chunk.as_slice());
        proof {
            let d2 = done.push(chunk@);
            assert(d2.drop_last() =~= done);
            assert(d2 + chunks_from(body@, end as int) =~= done + chunks_from(body@, pos as int));
            done = d2;
        }
        pos = end;
    }
    proof {
        lemma_chunks_done(body@);
        assert(done =~= chunks(body@));
    }
    st
}

// --------------------------------------------------- the category list

pub open spec fn categories_open() -> Seq<u8> {
    ascii("<categories"@)
}

pub open spec fn categories_close() -> Seq<u8> {
    ascii("</categories>"@)
}

pub open spec fn category_open() -> Seq<u8> {
    ascii("<category "@)
}

pub open spec fn category_close() -> Seq<u8> {
    ascii("</category>"@)
}

pub open spec fn attr_name() -> Seq<u8> {
    ascii("id"@)
}

pub open spec fn quote_space() -> Seq<u8> {
    ascii("\" "@)
}

pub open spec fn quote_gt() -> Seq<u8> {
    ascii("\">"@)
}

/// Where the reading of an opening `category` tag stands, byte by byte.
/// `id` is the flag of the settings scan, reused to mark that the value of
/// the `id` attribute is being read.
pub struct AttrView {
    pub id: bool,
    pub buf: Seq<u8>,
    pub category: bool,
    /// The value would be sliced out of a buffer too short for it: the
    /// program panics there.
    pub panicked: bool,
}

/// One byte of an opening `category` tag.
pub open spec fn attr_byte(st: AttrView, b: u8, ymls: Set<Seq<u8>>) -> AttrView {
    if st.panicked {
        st
    } else {
        let buf = st.buf.push(b);
        if st.id || buf == attr_name() {
            let buf = if st.id {
                buf
            } else {
                Seq::empty()
            };
            if has_suffix(buf, quote_space()) || has_suffix(buf, quote_gt()) {
                if buf.len() < 4 {
                    AttrView { id: true, buf, category: st.category, panicked: true }
                } else {
                    AttrView {
                        id: false,
                        buf: Seq::empty(),
                        category: ymls.contains(buf.subrange(2, buf.len() - 2)),
                        panicked: false,
                    }
                }
            } else {
                AttrView { id: true, buf, category: st.category, panicked: false }
            }
        } else {
            AttrView { id: st.id, buf, category: st.category, panicked: false }
        }
    }
}

pub open spec fn attr_run(st: AttrView, bytes: Seq<u8>, ymls: Set<Seq<u8>>) -> AttrView
    decreases bytes.len(),
{
    if bytes.len() == 0 {
        st
    } else {
        attr_byte(attr_run(st, bytes.drop_last(), ymls), bytes.last(), ymls)
    }
}

/// Where the scan of the category list stands.
#[derive(Clone, Copy)]
pub struct CategoryScan {
    /// Inside the `categories` element.
    pub categories: bool,
    /// Inside a `category` element that is kept.
    pub category: bool,
    /// The flag of the settings scan, reused by the attribute reading.
    pub id: bool,
    /// The end of the list was met: the rest of the document is not read.
    pub stopped: bool,
    /// The attribute reading hit a value too short to slice.
    pub panicked: bool,
}

/// One chunk of the category list.
pub open spec fn category_chunk(st: CategoryScan, buf: Seq<u8>, ymls: Set<Seq<u8>>) -> CategoryScan {
    let p1 = from_first_lt(buf);
    if st.stopped || st.panicked || !(st.categories || has_prefix(p1, categories_open())) {
        st
    } else if has_suffix(buf, categories_close()) {
        CategoryScan { categories: false, stopped: true, ..st }
    } else if st.category || has_prefix(p1, category_open()) {
        let a = if st.category {
            attr_start(st.id)
        } else {
            attr_run(attr_start(st.id), p1.skip(category_open().len() as int), ymls)
        };
        if a.panicked {
            CategoryScan { categories: true, category: a.category, id: a.id, stopped: false, panicked: true }
        } else {
            CategoryScan {
                categories: true,
                category: a.category && !has_suffix(buf, category_close()),
                id: a.id,
                stopped: false,
                panicked: false,
            }
        }
    } else {
        CategoryScan { categories: true, ..st }
    }
}

pub open spec fn category_run(st: CategoryScan, cs: Seq<Seq<u8>>, ymls: Set<Seq<u8>>) -> CategoryScan
    decreases cs.len(),
{
    if cs.len() == 0 {
        st
    } else {
        category_chunk(category_run(st, cs.drop_last(), ymls), cs.last(), ymls)
    }
}

proof fn lemma_attr_lits()
    ensures
        quote_space().len() == 2,
        quote_gt().len() == 2,
        attr_name().len() == 2,
{
    reveal_strlit("\" ");
    reveal_strlit("\">");
    reveal_strlit("id");
}

/// The attribute reading of a newly opened `category` element.
pub open spec fn attr_start(id: bool) -> AttrView {
    AttrView { id, buf: Seq::empty(), category: true, panicked: false }
}

/// Reads an opening `category` tag after its name, as the byte-by-byte
/// attribute reader does.
fn read_attr(id: bool, cut: &[u8], ymls: &Vec<Vec<u8>>) -> (r: (bool, bool, bool))
    ensures
        ({
            let a = attr_run(attr_start(id), cut@, byte_set(ymls@));
            r == (a.id, a.category, a.panicked)
        }),
{
    let ghost id0 = id;
    let ghost st = attr_start(id);
    proof {
        reveal_strlit("\" ");
        reveal_strlit("\">");
        reveal_strlit("id");
        lemma_attr_lits();
    }
    let name = lit("id");
    let qs = lit("\" ");
    let qg = lit("\">");
    let mut reading = id;
    let mut category = true;
    let mut buf: Vec<u8> = Vec::new();
    let mut i: usize = 0;
    let ghost ys = byte_set(ymls@);
    proof {
        assert(cut@.take(0) =~= Seq::<u8>::empty());
        assert(buf@ =~= st.buf);
    }
    while i < cut.len()
        invariant
            i <= cut.len(),
            name@ == attr_name(),
            qs@ == quote_space(),
            qg@ == quote_gt(),
            ys == byte_set(ymls@),
            st == attr_start(id0),
            id0 == id,
            attr_run(st, cut@.take(i as int), ys) == (AttrView {
                id: reading,
                buf: buf@,
                category,
                panicked: false,
            }),
        decreases cut.len() - i,
    {
        proof {
            assert(cut@.take(i + 1).drop_last() =~= cut@.take(i as int));
            assert(cut@.take(i + 1).last() == cut@[i as int]);
        }
        buf.push(cut[i]);
        if reading || crate::bytes::bytes_eq(buf.as_slice(), name) {
            if !reading {
                reading = true;
                buf = Vec::new();
            }
            if ends_with(buf.as_slice(), qs) || ends_with(buf.as_slice(), qg) {
                if buf.len() < 4 {
                    proof {
                        let prev = attr_run(st, cut@.take(i as int), ys);
                        assert(attr_run(st, cut@.take(i + 1), ys) == attr_byte(prev, cut@[i as int], ys));
                        assert(attr_run(st, cut@.take(i + 1), ys) == (AttrView {
                            id: true,
                            buf: buf@,
                            category,
                            panicked: true,
                        }));
                        lemma_attr_panic_stays(st, cut@, i + 1, ys);
                    }
                    return (true, category, true);
                }
                reading = false;
                let v = copy_range(buf.as_slice(), 2, buf.len() - 2);
                category = contains_bytes(ymls, v.as_slice());
                proof {
                    assert(category == ys.contains(v@));
                }
                buf = Vec::new();
            }
        }
        i = i + 1;
    }
    proof {
        assert(cut@.take(cut.len() as int) =~= cut@);
    }
    (reading, category, false)
}

proof fn lemma_attr_panic_stays(st: AttrView, bytes: Seq<u8>, j: int, ys: Set<Seq<u8>>)
    requires
        0 <= j <= bytes.len(),
        attr_run(st, bytes.take(j), ys).panicked,
    ensures
        attr_run(st, bytes, ys) == attr_run(st, bytes.take(j), ys),
    decreases bytes.len() - j,
{
    if j < bytes.len() {
        assert(bytes.take(j + 1).drop_last() =~= bytes.take(j));
        lemma_attr_panic_stays(st, bytes, j + 1, ys);
    } else {
        assert(bytes.take(j) =~= bytes);
    }
}

fn category_chunk_exec(st: &mut CategoryScan, buf: &[u8], ymls: &Vec<Vec<u8>>)
    requires
        !old(st).stopped,
        !old(st).panicked,
    ensures
        *final(st) == category_chunk(*old(st), buf@, byte_set(ymls@)),
{
    proof {
        reveal_strlit("<categories");
        reveal_strlit("</categories>");
        reveal_strlit("<category ");
        reveal_strlit("</category>");
    }
    let p1 = tag_part(buf);
    if st.categories || starts_with(p1.as_slice(), lit("<categories")) {
        st.categories = true;
        if ends_with(buf, lit("</categories>")) {
            st.categories = false;
            st.stopped = true;
        } else {
            let open = lit("<category ");
            if st.category || starts_with(p1.as_slice(), open) {
                if !st.category {
                    st.category = true;
                    let cut = crate::bytes::copy_range(p1.as_slice(), open.len(), p1.len());
                    proof {
                        assert(cut@ =~= p1@.skip(category_open().len() as int));
                    }
                    let (id, category, panicked) = read_attr(st.id, cut.as_slice(), ymls);
                    st.id = id;
                    st.category = category;
                    if panicked {
                        st.panicked = true;
                        return;
                    }
                }
                if st.category && ends_with(buf, lit("</category>")) {
                    st.category = false;
                }
            }
        }
    }
}

/// Scans the category list of a feed. `yml_ids` are the category ids of
/// the export file, and `id` the flag that the settings scan ended with.
/// The scan stops after the closing `categories` marker. `Err` where the
/// program panics: an `id` value too short to slice.
pub fn scan_categories(doc: &[u8], yml_ids: &Vec<Vec<u8>>, id: bool) -> (r: Result<
    CategoryScan,
    CategoryScan,
>)
    ensures
        ({
            let start = CategoryScan {
                categories: false,
                category: false,
                id,
                stopped: false,
                panicked: false,
            };
            let end = category_run(start, chunks(doc@), byte_set(yml_ids@));
            match r {
                Ok(st) => st == end && !end.panicked,
                Err(st) => st == end && end.panicked,
            }
        }),
{
    let ghost start = CategoryScan { categories: false, category: false, id, stopped: false, panicked: false };
    let ghost ys = byte_set(yml_ids@);
    let mut st = CategoryScan { categories: false, category: false, id, stopped: false, panicked: false };
    let mut pos: usize = 0;
    let ghost mut done: Seq<Seq<u8>> = Seq::empty();
    proof {
        assert(done + chunks_from(doc@, 0) =~= chunks(doc@));
    }
    while pos < doc.len()
        invariant
            pos <= doc.len(),
            ys == byte_set(yml_ids@),
            start == (CategoryScan { categories: false, category: false, id, stopped: false, panicked: false }),
            st == category_run(start, done, ys),
            !st.stopped,
            !st.panicked,
            done + chunks_from(doc@, pos as int) == chunks(doc@),
        decreases doc.len() - pos,
    {
        let end = next_chunk_end(doc, pos);
        let chunk = copy_range(doc, pos, end);
        proof {
            lemma_chunks_next(doc@, pos as int);
        }
        category_chunk_exec(&mut st, chunk.as_slice(), yml_ids);
        proof {
            let d2 = done.push(chunk@);
            assert(d2.drop_last() =~= done);
            assert(d2.last() == chunk@);
            assert(d2 + chunks_from(doc@, end as int) =~= done + chunks_from(doc@, pos as int));
            done = d2;
        }
        pos = end;
        if st.stopped || st.panicked {
            proof {
                assert(chunks(doc@).take(done.len() as int) =~= done);
                lemma_category_run_stays(start, chunks(doc@), done.len() as int, ys);
            }
            if st.panicked {
                return Err(st);
            }
            return Ok(st);
        }
    }
    proof {
        lemma_chunks_done(doc@);
        assert(done =~= chunks(doc@));
    }
    Ok(st)
}

proof fn lemma_category_run_stays(st: CategoryScan, cs: Seq<Seq<u8>>, j: int, ys: Set<Seq<u8>>)
    requires
        0 <= j <= cs.len(),
        category_run(st, cs.take(j), ys).stopped || category_run(st, cs.take(j), ys).panicked,
    ensures
        category_run(st, cs, ys) == category_run(st, cs.take(j), ys),
    decreases cs.len() - j,
{
    if j < cs.len() {
        assert(cs.take(j + 1).drop_last() =~= cs.take(j));
        lemma_category_run_stays(st, cs, j + 1, ys);
    } else {
        assert(cs.take(j) =~= cs);
    }
}

// ------------------------------------------------------- the offer list

/// A section flag after a chunk: it is set by a tag part that starts with
/// `open` and cleared by a chunk that ends with `close`.
pub open spec fn section(flag: bool, p1: Seq<u8>, buf: Seq<u8>, open: Seq<u8>, close: Seq<u8>) -> bool {
    (flag || has_prefix(p1, open)) && !has_suffix(buf, close)
}

fn section_exec(flag: bool, p1: &[u8], buf: &[u8], open: &[u8], close: &[u8]) -> (r: bool)
    ensures
        r == section(flag, p1@, buf@, open@, close@),
{
    if flag || starts_with(p1, open) {
        !ends_with(buf, close)
    } else {
        false
    }
}

/// Where the scan of the offer list stands.
#[derive(Clone, Copy)]
pub struct OfferScan {
    pub offers: bool,
    pub offer: bool,
    pub url: bool,
    pub category_id: bool,
    pub price: bool,
    pub picture: bool,
    /// The end of the list was met: the rest of the document is not read.
    pub stopped: bool,
}

/// One chunk of the offer list.
pub open spec fn offer_chunk(st: OfferScan, buf: Seq<u8>) -> OfferScan {
    let p1 = from_first_lt(buf);
    if st.stopped || !(st.offers || has_prefix(p1, ascii("<offers"@))) {
        st
    } else if has_suffix(buf, ascii("</offers>"@)) {
        OfferScan { offers: false, stopped: true, ..st }
    } else if !(st.offer || has_prefix(p1, ascii("<offer "@))) {
        OfferScan { offers: true, ..st }
    } else if has_suffix(buf, ascii("</offer>"@)) {
        OfferScan { offers: true, offer: false, ..st }
    } else {
        OfferScan {
            offers: true,
            offer: true,
            url: section(st.url, p1, buf, ascii("<url"@), ascii("</url>"@)),
            category_id: section(
                st.category_id,
                p1,
                buf,
                ascii("<categoryId"@),
                ascii("</categoryId>"@),
            ),
            price: section(st.price, p1, buf, ascii("<price"@), ascii("</price>"@)),
            picture: section(st.picture, p1, buf, ascii("<picture"@), ascii("</picture>"@)),
            stopped: false,
        }
    }
}

pub open spec fn offer_run(cs: Seq<Seq<u8>>) -> OfferScan
    decreases cs.len(),
{
    if cs.len() == 0 {
        OfferScan {
            offers: false,
            offer: false,
            url: false,
            category_id: false,
            price: false,
            picture: false,
            stopped: false,
        }
    } else {
        offer_chunk(offer_run(cs.drop_last()), cs.last())
    }
}

fn offer_chunk_exec(st: &mut OfferScan, buf: &[u8])
    requires
        !old(st).stopped,
    ensures
        *final(st) == offer_chunk(*old(st), buf@),
{
    proof {
        reveal_strlit("<offers");
        reveal_strlit("</offers>");
        reveal_strlit("<offer ");
        reveal_strlit("</offer>");
        reveal_strlit("<url");
        reveal_strlit("</url>");
        reveal_strlit("<categoryId");
        reveal_strlit("</categoryId>");
        reveal_strlit("<price");
        reveal_strlit("</price>");
        reveal_strlit("<picture");
        reveal_strlit("</picture>");
    }
    let p1 = tag_part(buf);
    let p = p1.as_slice();
    if st.offers || starts_with(p, lit("<offers")) {
        st.offers = true;
        if ends_with(buf, lit("</offers>")) {
            st.offers = false;
            st.stopped = true;
        } else if st.offer || starts_with(p, lit("<offer ")) {
            st.offer = true;
            if ends_with(buf, lit("</offer>")) {
                st.offer = false;
            } else {
                st.url = section_exec(st.url, p, buf, lit("<url"), lit("</url>"));
                st.category_id = section_exec(
                    st.category_id,
                    p,
                    buf,
                    lit("<categoryId"),
                    lit("</categoryId>"),
                );
                st.price = section_exec(st.price, p, buf, lit("<price"), lit("</price>"));
                st.picture = section_exec(st.picture, p, buf, lit("<picture"), lit("</picture>"));
            }
        }
    }
}

/// Scans the offer list of a feed, tracking the offer and the fields of
/// it that are being read. The scan stops after the closing `offers`
/// marker.
pub fn scan_offers(doc: &[u8]) -> (r: OfferScan)
    ensures
        r == offer_run(chunks(doc@)),
{
    let mut st = OfferScan {
        offers: false,
        offer: false,
        url: false,
        category_id: false,
        price: false,
        picture: false,
        stopped: false,
    };
    let mut pos: usize = 0;
    let ghost mut done: Seq<Seq<u8>> = Seq::empty();
    proof {
        assert(done + chunks_from(doc@, 0) =~= chunks(doc@));
    }
    while pos < doc.len()
        invariant
            pos <= doc.len(),
            st == offer_run(done),
            !st.stopped,
            done + chunks_from(doc@, pos as int) == chunks(doc@),
        decreases doc.len() - pos,
    {
        let end = next_chunk_end(doc, pos);
        let chunk = copy_range(doc, pos, end);
        proof {
            lemma_chunks_next(doc@, pos as int);
        }
        offer_chunk_exec(&mut st, chunk.as_slice());
        proof {
            let d2 = done.push(chunk@);
            assert(d2.drop_last() =~= done);
            assert(d2.last() == chunk@);
            assert(d2 + chunks_from(doc@, end as int) =~= done + chunks_from(doc@, pos as int));
            done = d2;
        }
        pos = end;
        if st.stopped {
            proof {
                assert(chunks(doc@).take(done.len() as int) =~= done);
                lemma_offer_run_stays(chunks(doc@), done.len() as int);
            }
            return st;
        }
    }
    proof {
        lemma_chunks_done(doc@);
        assert(done =~= chunks(doc@));
    }
    st
}

proof fn lemma_offer_run_stays(cs: Seq<Seq<u8>>, j: int)
    requires
        0 <= j <= cs.len(),
        offer_run(cs.take(j)).stopped,
    ensures
        offer_run(cs) == offer_run(cs.take(j)),
    decreases cs.len() - j,
{
    if j < cs.len() {
        assert(cs.take(j + 1).drop_last() =~= cs.take(j));
        lemma_offer_run_stays(cs, j + 1);
    } else {
        assert(cs.take(j) =~= cs);
    }
}

// ------------------------------------------------------------------ laws

/// Every merchant id and every YML id collected is the text before the
/// closing marker of some chunk of the answer.
pub proof fn law_settings_ids_come_from_chunks(cs: Seq<Seq<u8>>, x: Seq<u8>)
    ensures
        settings_run(cs).ids.contains(x) ==> exists|i: int|
            0 <= i < cs.len() && has_suffix(#[trigger] cs[i], id_close()) && x == text_before(
                cs[i],
                id_close(),
            ),
        settings_run(cs).yml_ids.contains(x) ==> exists|i: int|
            0 <= i < cs.len() && has_suffix(#[trigger] cs[i], yml_id_close()) && x == text_before(
                cs[i],
                yml_id_close(),
            ),
    decreases cs.len(),
{
    if cs.len() > 0 {
        let prev = cs.drop_last();
        law_settings_ids_come_from_chunks(prev, x);
        if settings_run(prev).ids.contains(x) {
            let i = choose|i: int|
                0 <= i < prev.len() && has_suffix(#[trigger] prev[i], id_close()) && x
                    == text_before(prev[i], id_close());
            assert(cs[i] == prev[i]);
        }
        if settings_run(prev).yml_ids.contains(x) {
            let i = choose|i: int|
                0 <= i < prev.len() && has_suffix(#[trigger] prev[i], yml_id_close()) && x
                    == text_before(prev[i], yml_id_close());
            assert(cs[i] == prev[i]);
        }
        assert(cs[cs.len() - 1] == cs.last());
    }
}

/// Once the category list has ended (or the scan has panicked), the rest
/// of the document is not looked at.
pub proof fn law_category_scan_ignores_rest(
    st: CategoryScan,
    cs1: Seq<Seq<u8>>,
    cs2: Seq<Seq<u8>>,
    ys: Set<Seq<u8>>,
)
    requires
        category_run(st, cs1, ys).stopped || category_run(st, cs1, ys).panicked,
    ensures
        category_run(st, cs1 + cs2, ys) == category_run(st, cs1, ys),
    decreases cs2.len(),
{
    if cs2.len() == 0 {
        assert(cs1 + cs2 =~= cs1);
    } else {
        law_category_scan_ignores_rest(st, cs1, cs2.drop_last(), ys);
        assert((cs1 + cs2).drop_last() =~= cs1 + cs2.drop_last());
    }
}

/// Once the offer list has ended, the rest of the document is not looked
/// at.
pub proof fn law_offer_scan_ignores_rest(cs1: Seq<Seq<u8>>, cs2: Seq<Seq<u8>>)
    requires
        offer_run(cs1).stopped,
    ensures
        offer_run(cs1 + cs2) == offer_run(cs1),
    decreases cs2.len(),
{
    if cs2.len() == 0 {
        assert(cs1 + cs2 =~= cs1);
    } else {
        law_offer_scan_ignores_rest(cs1, cs2.drop_last());
        assert((cs1 + cs2).drop_last() =~= cs1 + cs2.drop_last());
    }
}

// ------------------------------------------------- white space before tags

/// Bytes that hold no `<`: the layout (line breaks, indentation) that may
/// stand before a tag in a chunk.
pub open spec fn no_lt(lead: Seq<u8>) -> bool {
    forall|i: int| 0 <= i < lead.len() ==> #[trigger] lead[i] != 60u8
}

/// A marker of the scans: it starts with `<`.
pub open spec fn marker(m: Seq<u8>) -> bool {
    m.len() > 0 && m[0] == 60u8
}

proof fn lemma_first_lt_after_lead(lead: Seq<u8>, buf: Seq<u8>)
    requires
        no_lt(lead),
    ensures
        first_index_of(lead + buf, 60u8) == match first_index_of(buf, 60u8) {
            Some(i) => Some(i + lead.len()),
            None => None::<int>,
        },
    decreases lead.len(),
{
    if lead.len() == 0 {
        assert(lead + buf =~= buf);
    } else {
        assert((lead + buf).drop_first() =~= lead.drop_first() + buf);
        assert((lead + buf)[0] == lead[0]);
        assert(no_lt(lead.drop_first())) by {
            assert forall|i: int| 0 <= i < lead.drop_first().len() implies #[trigger] lead.drop_first()[i]
                != 60u8 by {
                assert(lead.drop_first()[i] == lead[i + 1]);
            }
        }
        lemma_first_lt_after_lead(lead.drop_first(), buf);
    }
}

/// An opening marker is found at the first `<` of a chunk whatever stands
/// before it.
proof fn lemma_lead_prefix(lead: Seq<u8>, buf: Seq<u8>, open: Seq<u8>)
    requires
        no_lt(lead),
        marker(open),
    ensures
        has_prefix(from_first_lt(lead + buf), open) == has_prefix(from_first_lt(buf), open),
{
    lemma_first_lt_after_lead(lead, buf);
    lemma_first_index_of(buf, 60u8);
    lemma_first_index_of(lead + buf, 60u8);
    match first_index_of(buf, 60u8) {
        Some(i) => {
            assert((lead + buf).skip(i + lead.len()) =~= buf.skip(i));
        },
        None => {
            if has_prefix(lead + buf, open) {
                assert((lead + buf).take(open.len() as int)[0] == open[0]);
            }
            if has_prefix(buf, open) {
                assert(buf.take(open.len() as int)[0] == open[0]);
            }
        },
    }
}

/// A closing marker ends a chunk whatever stands before the chunk's first
/// `<`.
proof fn lemma_lead_suffix(lead: Seq<u8>, buf: Seq<u8>, close: Seq<u8>)
    requires
        no_lt(lead),
        marker(close),
    ensures
        has_suffix(lead + buf, close) == has_suffix(buf, close),
{
    let all = lead + buf;
    if close.len() <= buf.len() {
        assert(all.skip(all.len() - close.len()) =~= buf.skip(buf.len() - close.len()));
    } else if has_suffix(all, close) {
        let k = all.len() - close.len();
        assert(all.skip(k)[0] == close[0]);
        assert(all[k] == 60u8);
        assert(k < lead.len());
        assert(all[k] == lead[k]);
    }
}

proof fn lemma_scan_markers()
    ensures
        marker(id_open()),
        marker(id_close()),
        marker(yml_id_open()),
        marker(yml_id_close()),
        marker(ascii("<offers"@)),
        marker(ascii("</offers>"@)),
        marker(ascii("<offer "@)),
        marker(ascii("</offer>"@)),
        marker(ascii("<url"@)),
        marker(ascii("</url>"@)),
        marker(ascii("<categoryId"@)),
        marker(ascii("</categoryId>"@)),
        marker(ascii("<price"@)),
        marker(ascii("</price>"@)),
        marker(ascii("<picture"@)),
        marker(ascii("</picture>"@)),
{
    reveal_strlit("<id");
    reveal_strlit("</id>");
    reveal_strlit("<ymlId");
    reveal_strlit("</ymlId>");
    reveal_strlit("<offers");
    reveal_strlit("</offers>");
    reveal_strlit("<offer ");
    reveal_strlit("</offer>");
    reveal_strlit("<url");
    reveal_strlit("</url>");
    reveal_strlit("<categoryId");
    reveal_strlit("</categoryId>");
    reveal_strlit("<price");
    reveal_strlit("</price>");
    reveal_strlit("<picture");
    reveal_strlit("</picture>");
}

/// White space (any bytes without `<`) before the tag of a chunk of the
/// settings answer changes neither which sections are open after it nor,
/// where the chunk closes no section, the ids collected: an answer laid out
/// on several lines is scanned as the same answer on one line.
pub proof fn law_settings_scan_skips_layout(st: SettingsView, lead: Seq<u8>, buf: Seq<u8>)
    requires
        no_lt(lead),
    ensures
        settings_chunk(st, lead + buf).id == settings_chunk(st, buf).id,
        settings_chunk(st, lead + buf).yml_id == settings_chunk(st, buf).yml_id,
        !has_suffix(buf, id_close()) ==> settings_chunk(st, lead + buf).ids == settings_chunk(
            st,
            buf,
        ).ids,
        !has_suffix(buf, yml_id_close()) ==> settings_chunk(st, lead + buf).yml_ids
            == settings_chunk(st, buf).yml_ids,
{
    lemma_scan_markers();
    lemma_lead_prefix(lead, buf, id_open());
    lemma_lead_prefix(lead, buf, yml_id_open());
    lemma_lead_suffix(lead, buf, id_close());
    lemma_lead_suffix(lead, buf, yml_id_close());
}

/// White space (any bytes without `<`) before the tag of a chunk of the
/// offer list changes nothing in the scan: a feed with each tag on its own
/// line enters its offers and their fields as the same feed on one line.
pub proof fn law_offer_scan_skips_layout(st: OfferScan, lead: Seq<u8>, buf: Seq<u8>)
    requires
        no_lt(lead),
    ensures
        offer_chunk(st, lead + buf) == offer_chunk(st, buf),
{
    lemma_scan_markers();
    lemma_lead_prefix(lead, buf, ascii("<offers"@));
    lemma_lead_prefix(lead, buf, ascii("<offer "@));
    lemma_lead_prefix(lead, buf, ascii("<url"@));
    lemma_lead_prefix(lead, buf, ascii("<categoryId"@));
    lemma_lead_prefix(lead, buf, ascii("<price"@));
    lemma_lead_prefix(lead, buf, ascii("<picture"@));
    lemma_lead_suffix(lead, buf, ascii("</offers>"@));
    lemma_lead_suffix(lead, buf, ascii("</offer>"@));
    lemma_lead_suffix(lead, buf, ascii("</url>"@));
    lemma_lead_suffix(lead, buf, ascii("</categoryId>"@));
    lemma_lead_suffix(lead, buf, ascii("</price>"@));
    lemma_lead_suffix(lead, buf, ascii("</picture>"@));
}

// --------------------------------------------------- the id of a category

/// What the attribute reading holds after `id` and the first `k` bytes of
/// `="value"`: it is reading the value, and nothing has ended it yet.
proof fn lemma_attr_reads_value(v: Seq<u8>, ys: Set<Seq<u8>>, k: int)
    requires
        forall|i: int| 0 <= i < v.len() ==> v[i] != 34u8,
        v.len() > 0 ==> v[0] != 32u8 && v[0] != 62u8,
        0 <= k <= v.len() + 3,
    ensures
        ({
            let tail = seq![61u8, 34u8] + v + seq![34u8];
            attr_run(attr_start(false), attr_name() + tail.take(k), ys) == (AttrView {
                id: true,
                buf: tail.take(k),
                category: true,
                panicked: false,
            })
        }),
    decreases k,
{
    let tail = seq![61u8, 34u8] + v + seq![34u8];
    lemma_attr_lits();
    reveal_strlit("id");
    reveal_strlit("\" ");
    reveal_strlit("\">");
    let st = attr_start(false);
    if k == 0 {
        let name = attr_name();
        assert(name + tail.take(0) =~= name);
        assert(name.drop_last() =~= seq![name[0]]);
        assert(seq![name[0]].drop_last() =~= Seq::<u8>::empty());
        let a1 = attr_byte(st, name[0], ys);
        assert(st.buf.push(name[0]) =~= seq![name[0]]);
        assert(seq![name[0]] != name);
        assert(seq![name[0]].last() == name[0]);
        assert(attr_run(st, Seq::<u8>::empty(), ys) == st);
        assert(attr_run(st, seq![name[0]], ys) == a1);
        assert(name.last() == name[1]);
        assert(a1.buf.push(name[1]) =~= name);
        assert(tail.take(0) =~= Seq::<u8>::empty());
    } else {
        lemma_attr_reads_value(v, ys, k - 1);
        let bytes = attr_name() + tail.take(k);
        assert(bytes.drop_last() =~= attr_name() + tail.take(k - 1));
        assert(bytes.last() == tail[k - 1]);
        let buf = tail.take(k);
        assert(tail.take(k - 1).push(tail[k - 1]) =~= buf);
        assert(!has_suffix(buf, quote_space()) && !has_suffix(buf, quote_gt())) by {
            if k >= 2 {
                assert(buf.skip(k - 2)[0] == tail[k - 2]);
                assert(buf.skip(k - 2)[1] == tail[k - 1]);
                if tail[k - 2] == 34u8 {
                    if k - 2 != 1 {
                        assert(2 <= k - 2 < v.len() + 2 ==> tail[k - 2] == v[k - 4]);
                    }
                    if v.len() > 0 {
                        assert(tail[2] == v[0]);
                    } else {
                        assert(tail[2] == 34u8);
                    }
                }
            }
        }
    }
}

/// The attribute reading of `id="value"` ends at the closing quote and
/// keeps the category exactly when the whole value is a YML id.
proof fn lemma_attr_whole_value(v: Seq<u8>, ys: Set<Seq<u8>>)
    requires
        forall|i: int| 0 <= i < v.len() ==> v[i] != 34u8,
        v.len() > 0 ==> v[0] != 32u8 && v[0] != 62u8,
    ensures
        attr_run(attr_start(false), attr_name() + seq![61u8, 34u8] + v + seq![34u8, 62u8], ys)
            == (AttrView { id: false, buf: Seq::empty(), category: ys.contains(v), panicked: false }),
{
    let tail = seq![61u8, 34u8] + v + seq![34u8];
    lemma_attr_reads_value(v, ys, v.len() + 3int);
    lemma_attr_lits();
    reveal_strlit("\">");
    let bytes = attr_name() + seq![61u8, 34u8] + v + seq![34u8, 62u8];
    assert(tail.take(v.len() + 3int) =~= tail);
    assert(bytes.drop_last() =~= attr_name() + tail);
    assert(bytes.last() == 62u8);
    let buf = tail.push(62u8);
    assert(has_suffix(buf, quote_gt())) by {
        assert(buf.skip(buf.len() - 2) =~= quote_gt());
    }
    assert(buf.subrange(2, buf.len() - 2) =~= v);
}

/// A category opened with a leading `id` attribute is kept exactly when
/// the whole value of the attribute (every byte between `="` and the
/// closing quote) is one of the YML ids.
pub proof fn law_category_kept_by_whole_id(st: CategoryScan, v: Seq<u8>, ys: Set<Seq<u8>>)
    requires
        st.categories,
        !st.category,
        !st.id,
        !st.stopped,
        !st.panicked,
        forall|i: int| 0 <= i < v.len() ==> v[i] != 34u8,
        v.len() > 0 ==> v[0] != 32u8 && v[0] != 62u8,
    ensures
        category_chunk(st, category_open() + ascii("id=\""@) + v + quote_gt(), ys) == (CategoryScan {
            categories: true,
            category: ys.contains(v),
            id: false,
            stopped: false,
            panicked: false,
        }),
{
    reveal_strlit("<category ");
    reveal_strlit("id=\"");
    reveal_strlit("\">");
    reveal_strlit("</categories>");
    reveal_strlit("</category>");
    reveal_strlit("id");
    lemma_attr_lits();
    let open = category_open();
    let buf = open + ascii("id=\""@) + v + quote_gt();
    let cut = attr_name() + seq![61u8, 34u8] + v + seq![34u8, 62u8];
    assert(buf[0] == 60u8);
    assert(from_first_lt(buf) == buf) by {
        assert(first_index_of(buf, 60u8) == Some(0int));
        assert(buf.skip(0) =~= buf);
    }
    assert(has_prefix(buf, open)) by {
        assert(buf.take(open.len() as int) =~= open);
    }
    assert(buf.skip(open.len() as int) =~= cut);
    lemma_attr_whole_value(v, ys);
    assert(!has_suffix(buf, categories_close())) by {
        if has_suffix(buf, categories_close()) {
            assert(buf.skip(buf.len() - categories_close().len())[categories_close().len() - 2]
                == buf[buf.len() - 2]);
        }
    }
    assert(!has_suffix(buf, category_close())) by {
        if has_suffix(buf, category_close()) {
            assert(buf.skip(buf.len() - category_close().len())[category_close().len() - 2]
                == buf[buf.len() - 2]);
        }
    }
}

} // verus!
