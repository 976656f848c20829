//! Rewriting of feed documents: the elements of one kind (categories or
//! offers) are copied from each document into the catalog, with pictures
//! renamed, prices dropped, and links moved into a tag of their own.
use vstd::prelude::*;
use vstd::utf8::{encode_utf8, valid_utf8};
use crate::bytes::{ascii, bytes_eq, lit};
use crate::text::decode;
use crate::xml::{
    is_final, lemma_render_concat, lemma_render_one, next_event, open_reader, pending, put, render,
    unescape, write_cdata, write_chars, write_close, write_open, write_self_closing, wstate,
    xml_escape, xml_events, xml_unescape, Ev, Piece, XmlEvent, XmlWriter,
};

verus! {

// ------------------------------------------------------------- the names

pub open spec fn tag_picture() -> Seq<u8> {
    ascii("picture"@)
}

pub open spec fn tag_url() -> Seq<u8> {
    ascii("url"@)
}

pub open spec fn tag_price() -> Seq<u8> {
    ascii("price"@)
}

pub open spec fn tag_bibi() -> Seq<u8> {
    ascii("bibi"@)
}

pub open spec fn tag_destination() -> Seq<u8> {
    ascii("destination-url-do-not-send-traffic"@)
}

pub open spec fn text_test() -> Seq<u8> {
    ascii("test"@)
}

fn picture_name() -> (r: &'static [u8])
    ensures
        r@ == tag_picture(),
{
    proof {
        reveal_strlit("picture");
    }
    lit("picture")
}

fn url_name() -> (r: &'static [u8])
    ensures
        r@ == tag_url(),
{
    proof {
        reveal_strlit("url");
    }
    lit("url")
}

fn price_name() -> (r: &'static [u8])
    ensures
        r@ == tag_price(),
{
    proof {
        reveal_strlit("price");
    }
    lit("price")
}

fn bibi_name() -> (r: &'static [u8])
    ensures
        r@ == tag_bibi(),
{
    proof {
        reveal_strlit("bibi");
    }
    lit("bibi")
}

fn destination_name() -> (r: &'static [u8])
    ensures
        r@ == tag_destination(),
{
    proof {
        reveal_strlit("destination-url-do-not-send-traffic");
    }
    lit("destination-url-do-not-send-traffic")
}

// ------------------------------------------------------------ the pieces

/// What an opening tag inside the copied element becomes.
pub open spec fn start_pieces(name: Seq<u8>, content: Seq<u8>) -> Seq<Piece> {
    if name == tag_picture() {
        seq![Piece::Open(tag_bibi())]
    } else if name == tag_url() {
        seq![Piece::Open(name)]
    } else {
        seq![Piece::Open(content)]
    }
}

/// What a closing tag inside the copied element becomes.
pub open spec fn end_pieces(name: Seq<u8>) -> Seq<Piece> {
    if name == tag_picture() {
        seq![Piece::Close(tag_bibi())]
    } else {
        seq![Piece::Close(name)]
    }
}

/// The link that escaped text holds: it must be UTF-8, unescape, and
/// unescape to UTF-8.
pub open spec fn url_value(t: Seq<u8>) -> Option<Seq<u8>> {
    if valid_utf8(t) {
        match xml_unescape(t) {
            Some(u) => if valid_utf8(u) {
                Some(u)
            } else {
                None
            },
            None => None,
        }
    } else {
        None
    }
}

/// What text inside the element `name` becomes; `None` where the text of
/// a link cannot be read.
pub open spec fn text_pieces(name: Seq<u8>, t: Seq<u8>) -> Option<Seq<Piece>> {
    if name == tag_price() {
        Some(Seq::empty())
    } else if name == tag_picture() {
        Some(seq![Piece::CData(xml_escape(text_test()))])
    } else if name == tag_url() {
        match url_value(t) {
            Some(u) => Some(
                seq![
                    Piece::Open(tag_destination()),
                    Piece::CData(xml_escape(u)),
                    Piece::Close(tag_destination()),
                ],
            ),
            None => None,
        }
    } else {
        Some(seq![Piece::Chars(t)])
    }
}

// --------------------------------------------------------- the step rule

/// How a document's reading ended.
pub enum DocStatus {
    /// The copied element closed, or the document ended.
    Finished,
    /// The reader found the document malformed.
    Failed,
    /// The program gives up here: a link could not be read.
    Panicked,
}

/// Where the reading of a document stands.
pub struct FeedState {
    /// Inside the element being copied.
    pub in_tag: bool,
    /// The name of the last opening tag seen inside it.
    pub name: Seq<u8>,
}

/// What one event does.
pub struct Step {
    pub next: FeedState,
    pub pieces: Seq<Piece>,
    pub price: bool,
    pub stop: Option<DocStatus>,
}

pub open spec fn stay(st: FeedState) -> Step {
    Step { next: st, pieces: Seq::empty(), price: false, stop: None }
}

pub open spec fn feed_step(st: FeedState, ev: Ev, tag: Seq<u8>) -> Step {
    match ev {
        Ev::Start(n, c) => if st.in_tag && n != tag {
            Step {
                next: FeedState { in_tag: true, name: n },
                pieces: start_pieces(n, c),
                price: false,
                stop: None,
            }
        } else if !st.in_tag && n == tag {
            Step {
                next: FeedState { in_tag: true, name: st.name },
                pieces: seq![Piece::Open(c)],
                price: false,
                stop: None,
            }
        } else {
            stay(st)
        },
        Ev::Text(t) => text_step(st, t),
        Ev::CData(t) => text_step(st, t),
        Ev::End(n) => if st.in_tag && n != tag {
            Step { next: st, pieces: end_pieces(n), price: false, stop: None }
        } else if st.in_tag && n == tag {
            Step {
                next: FeedState { in_tag: false, name: st.name },
                pieces: seq![Piece::Close(n)],
                price: false,
                stop: Some(DocStatus::Finished),
            }
        } else {
            stay(st)
        },
        Ev::Empty(_n, c) => if st.in_tag {
            Step { next: st, pieces: seq![Piece::SelfClosing(c)], price: false, stop: None }
        } else {
            stay(st)
        },
        Ev::Eof => Step {
            next: st,
            pieces: Seq::empty(),
            price: false,
            stop: Some(DocStatus::Finished),
        },
        Ev::Error => Step {
            next: st,
            pieces: Seq::empty(),
            price: false,
            stop: Some(DocStatus::Failed),
        },
        Ev::Other => stay(st),
    }
}

pub open spec fn text_step(st: FeedState, t: Seq<u8>) -> Step {
    if st.in_tag {
        match text_pieces(st.name, t) {
            Some(ps) => Step { next: st, pieces: ps, price: st.name == tag_price(), stop: None },
            None => Step {
                next: st,
                pieces: Seq::empty(),
                price: false,
                stop: Some(DocStatus::Panicked),
            },
        }
    } else {
        stay(st)
    }
}

/// The reading of a sequence of events, up to where it stops.
pub struct Run {
    pub st: FeedState,
    pub pieces: Seq<Piece>,
    pub prices: nat,
    pub stop: Option<DocStatus>,
}

pub open spec fn feed_run(evs: Seq<Ev>, tag: Seq<u8>) -> Run
    decreases evs.len(),
{
    if evs.len() == 0 {
        Run {
            st: FeedState { in_tag: false, name: Seq::empty() },
            pieces: Seq::empty(),
            prices: 0,
            stop: None,
        }
    } else {
        let r = feed_run(evs.drop_last(), tag);
        if r.stop is Some {
            r
        } else {
            let s = feed_step(r.st, evs.last(), tag);
            Run {
                st: s.next,
                pieces: r.pieces + s.pieces,
                prices: r.prices + if s.price {
                    1nat
                } else {
                    0nat
                },
                stop: s.stop,
            }
        }
    }
}

/// A count as a `usize` that saturates.
pub open spec fn capped(n: nat) -> usize {
    if n > usize::MAX {
        usize::MAX
    } else {
        n as usize
    }
}

proof fn lemma_run_next(evs: Seq<Ev>, k: int, tag: Seq<u8>)
    requires
        0 <= k < evs.len(),
        feed_run(evs.take(k), tag).stop is None,
    ensures
        ({
            let r = feed_run(evs.take(k), tag);
            let s = feed_step(r.st, evs[k], tag);
            feed_run(evs.take(k + 1), tag) == Run {
                st: s.next,
                pieces: r.pieces + s.pieces,
                prices: r.prices + if s.price {
                    1nat
                } else {
                    0nat
                },
                stop: s.stop,
            }
        }),
{
    assert(evs.take(k + 1).drop_last() =~= evs.take(k));
    assert(evs.take(k + 1).last() == evs[k]);
}

proof fn lemma_run_stays(evs: Seq<Ev>, j: int, tag: Seq<u8>)
    requires
        0 <= j <= evs.len(),
        feed_run(evs.take(j), tag).stop is Some,
    ensures
        feed_run(evs, tag) == feed_run(evs.take(j), tag),
    decreases evs.len() - j,
{
    if j < evs.len() {
        assert(evs.take(j + 1).drop_last() =~= evs.take(j));
        lemma_run_stays(evs, j + 1, tag);
    } else {
        assert(evs.take(j) =~= evs);
    }
}

// -------------------------------------------------------------- writing

/// The error of a write. The catalog is written into an in-memory
/// cursor, where a write does not fail: no function here returns it.
pub struct WriteFailed;

/// Writes an opening tag with this name and no attributes.
pub fn start_tag(name: &[u8], writer: &mut XmlWriter)
    ensures
        wstate(*final(writer)) == put(wstate(*old(writer)), Piece::Open(name@)),
{
    write_open(writer, name);
}

/// Writes a closing tag.
pub fn end_tag(name: &[u8], writer: &mut XmlWriter)
    ensures
        wstate(*final(writer)) == put(wstate(*old(writer)), Piece::Close(name@)),
{
    write_close(writer, name);
}

/// Writes the text, escaped, as character data.
pub fn set_value(value: &str, writer: &mut XmlWriter) -> (r: Result<(), WriteFailed>)
    ensures
        r is Ok,
        wstate(*final(writer)) == put(
            wstate(*old(writer)),
            Piece::CData(xml_escape(encode_utf8(value@))),
        ),
{
    write_cdata(writer, value);
    Ok(())
}

pub open spec fn tag_with_text(name: Seq<u8>, text: Seq<char>) -> Seq<Piece> {
    seq![Piece::Open(name), Piece::CData(xml_escape(encode_utf8(text))), Piece::Close(name)]
}

/// Writes an element that holds the text as character data.
pub fn create_tag(name: &[u8], text: &str, writer: &mut XmlWriter) -> (r: Result<(), WriteFailed>)
    ensures
        r is Ok,
        wstate(*final(writer)) == render(wstate(*old(writer)), tag_with_text(name@, text@)),
{
    let ghost w0 = wstate(*writer);
    start_tag(name, writer);
    let ghost w1 = wstate(*writer);
    match set_value(text, writer) {
        Err(e) => {
            return Err(e);
        },
        Ok(()) => {},
    }
    let ghost w2 = wstate(*writer);
    end_tag(name, writer);
    proof {
        let p1 = seq![Piece::Open(name@)];
        let p2 = seq![Piece::CData(xml_escape(encode_utf8(text@)))];
        let p3 = seq![Piece::Close(name@)];
        lemma_render_one(w0, Piece::Open(name@));
        lemma_render_one(w1, p2[0]);
        lemma_render_one(w2, Piece::Close(name@));
        lemma_render_concat(w0, p1, p2);
        lemma_render_concat(w0, p1 + p2, p3);
        assert(p1 + p2 + p3 =~= tag_with_text(name@, text@));
    }
    Ok(())
}

/// Writes an opening tag met inside the copied element: `picture` becomes
/// `bibi`, `url` loses its attributes, any other tag is copied.
pub fn start_handler(name: &[u8], content: &[u8], writer: &mut XmlWriter)
    ensures
        wstate(*final(writer)) == render(wstate(*old(writer)), start_pieces(name@, content@)),
{
    let ghost w0 = wstate(*writer);
    if bytes_eq(name, picture_name()) {
        start_tag(bibi_name(), writer);
        proof {
            lemma_render_one(w0, Piece::Open(tag_bibi()));
        }
    } else if bytes_eq(name, url_name()) {
        start_tag(name, writer);
        proof {
            lemma_render_one(w0, Piece::Open(name@));
        }
    } else {
        write_open(writer, content);
        proof {
            lemma_render_one(w0, Piece::Open(content@));
        }
    }
}

/// What the text handler made of a text.
pub enum TextOutcome {
    /// It wrote what the text becomes.
    Written,
    /// It was a price: nothing is written, and the program prints the
    /// minimal price.
    Price,
    /// It was a link that cannot be read: the program gives up.
    UnreadableLink,
}

/// Writes text met inside the element `name`: prices are dropped (and
/// reported), the text of a picture becomes `test`, a link goes into a
/// tag of its own, any other text is copied.
pub fn text_handler(name: &[u8], text: &[u8], writer: &mut XmlWriter) -> (t: TextOutcome)
    ensures
        t is Price <==> name@ == tag_price(),
        t is UnreadableLink <==> text_pieces(name@, text@) is None,
        text_pieces(name@, text@) matches Some(ps) ==> wstate(*final(writer)) == render(
            wstate(*old(writer)),
            ps,
        ),
        text_pieces(name@, text@) is None ==> wstate(*final(writer)) == wstate(*old(writer)),
{
    let ghost w0 = wstate(*writer);
    proof {
        reveal_strlit("picture");
        reveal_strlit("url");
        reveal_strlit("price");
        assert(tag_picture().len() != tag_url().len());
        assert(tag_price().len() != tag_url().len());
    }
    if bytes_eq(name, price_name()) {
        proof {
            assert(render(w0, Seq::<Piece>::empty()) == w0);
        }
        return TextOutcome::Price;
    }
    if bytes_eq(name, picture_name()) {
        proof {
            reveal_strlit("test");
            vstd::utf8::is_ascii_chars_encode_utf8("test"@);
            assert(encode_utf8("test"@) =~= text_test());
        }
        write_cdata(writer, "test");
        proof {
            lemma_render_one(w0, Piece::CData(xml_escape(text_test())));
        }
        return TextOutcome::Written;
    }
    if bytes_eq(name, url_name()) {
        if decode(text).is_none() {
            return TextOutcome::UnreadableLink;
        }
        let unescaped = match unescape(text) {
            Some(u) => u,
            None => {
                return TextOutcome::UnreadableLink;
            },
        };
        let value = match decode(unescaped.as_slice()) {
            Some(v) => v,
            None => {
                return TextOutcome::UnreadableLink;
            },
        };
        let dest = destination_name();
        let _ = create_tag(dest, value, writer);
        proof {
            assert(encode_utf8(value@) == unescaped@);
            assert(url_value(text@) == Some(unescaped@));
        }
        return TextOutcome::Written;
    }
    write_chars(writer, text);
    proof {
        lemma_render_one(w0, Piece::Chars(text@));
    }
    TextOutcome::Written
}

/// Writes a closing tag met inside the copied element: `picture` becomes
/// `bibi`, any other tag is copied.
pub fn end_handler(name: &[u8], writer: &mut XmlWriter)
    ensures
        wstate(*final(writer)) == render(wstate(*old(writer)), end_pieces(name@)),
{
    let ghost w0 = wstate(*writer);
    if bytes_eq(name, picture_name()) {
        end_tag(bibi_name(), writer);
        proof {
            lemma_render_one(w0, Piece::Close(tag_bibi()));
        }
    } else if bytes_eq(name, url_name()) {
        end_tag(name, writer);
        proof {
            lemma_render_one(w0, Piece::Close(name@));
        }
    } else {
        write_close(writer, name);
        proof {
            lemma_render_one(w0, Piece::Close(name@));
        }
    }
}

// ------------------------------------------------------------ a document

/// How the reading of one document went.
pub struct DocReport {
    pub status: DocStatus,
    /// How many prices were met (the program prints the minimal price for
    /// each); saturates at `usize::MAX`.
    pub prices: usize,
}

proof fn lemma_capped_next(n: nat)
    ensures
        capped(n + 1) == (if capped(n) < usize::MAX {
            (capped(n) + 1) as usize
        } else {
            usize::MAX
        }),
{
}

/// Reads the document and copies the first element named `tag` into the
/// writer, rewritten as `feed_step` says, and stops there: the status, the
/// pieces written and the number of prices met are those of `feed_run`
/// over the document's events.
pub fn read_one(doc: &[u8], tag: &[u8], yml_ids: Vec<&str>, writer: &mut XmlWriter) -> (report:
    DocReport)
    ensures
        ({
            let run = feed_run(xml_events(doc@), tag@);
            &&& run.stop == Some(report.status)
            &&& wstate(*final(writer)) == render(wstate(*old(writer)), run.pieces)
            &&& report.prices == capped(run.prices)
        }),
{
    let mut reader = open_reader(doc);
    let ghost evs = pending(reader);
    let ghost w0 = wstate(*writer);
    let mut in_tag = false;
    let mut name: Vec<u8> = Vec::new();
    let mut prices: usize = 0;
    let ghost mut k: int = 0;
    proof {
        assert(evs.take(0) =~= Seq::<Ev>::empty());
        assert(evs.skip(0) =~= evs);
        assert(name@ =~= Seq::<u8>::empty());
    }
    loop
        invariant
            evs == xml_events(doc@),
            evs.len() > 0,
            is_final(evs.last()),
            0 <= k < evs.len(),
            pending(reader) == evs.skip(k),
            w0 == wstate(*old(writer)),
            feed_run(evs.take(k), tag@).stop is None,
            feed_run(evs.take(k), tag@).st == (FeedState { in_tag, name: name@ }),
            prices == capped(feed_run(evs.take(k), tag@).prices),
            wstate(*writer) == render(w0, feed_run(evs.take(k), tag@).pieces),
        decreases evs.len() - k,
    {
        let ghost r = feed_run(evs.take(k), tag@);
        let ghost wk = wstate(*writer);
        let ev = next_event(&mut reader);
        let ghost s = feed_step(r.st, evs[k], tag@);
        proof {
            lemma_run_next(evs, k, tag@);
            assert(evs.skip(k)[0] == evs[k]);
            assert(ev@ == evs[k]);
        }
        // What the event leads to: `None` to read on.
        let mut ended: Option<DocStatus> = None;
        match ev {
            XmlEvent::Start(n, content) => {
                if in_tag && !bytes_eq(n.as_slice(), tag) {
                    start_handler(n.as_slice(), content.as_slice(), writer);
                    proof {
                        assert(s.pieces == start_pieces(n@, content@));
                    }
                    name = n;
                } else if !in_tag && bytes_eq(n.as_slice(), tag) {
                    in_tag = true;
                    write_open(writer, content.as_slice());
                    proof {
                        lemma_render_one(wk, Piece::Open(content@));
                    }
                }
            },
            XmlEvent::Text(escaped) => {
                if in_tag {
                    let t = text_handler(name.as_slice(), escaped.as_slice(), writer);
                    proof {
                        assert(s == text_step(r.st, escaped@));
                    }
                    match t {
                        TextOutcome::Price => {
                            if prices < usize::MAX {
                                prices = prices + 1;
                            }
                        },
                        TextOutcome::UnreadableLink => {
                            ended = Some(DocStatus::Panicked);
                        },
                        TextOutcome::Written => {},
                    }
                }
            },
            XmlEvent::CData(escaped) => {
                if in_tag {
                    let t = text_handler(name.as_slice(), escaped.as_slice(), writer);
                    proof {
                        assert(s == text_step(r.st, escaped@));
                    }
                    match t {
                        TextOutcome::Price => {
                            if prices < usize::MAX {
                                prices = prices + 1;
                            }
                        },
                        TextOutcome::UnreadableLink => {
                            ended = Some(DocStatus::Panicked);
                        },
                        TextOutcome::Written => {},
                    }
                }
            },
            XmlEvent::End(n) => {
                if in_tag && !bytes_eq(n.as_slice(), tag) {
                    end_handler(n.as_slice(), writer);
                    proof {
                        assert(s.pieces == end_pieces(n@));
                    }
                } else if in_tag && bytes_eq(n.as_slice(), tag) {
                    in_tag = false;
                    write_close(writer, n.as_slice());
                    proof {
                        lemma_render_one(wk, Piece::Close(n@));
                    }
                    ended = Some(DocStatus::Finished);
                }
            },
            XmlEvent::Empty(_, content) => {
                if in_tag {
                    write_self_closing(writer, content.as_slice());
                    proof {
                        lemma_render_one(wk, Piece::SelfClosing(content@));
                    }
                }
            },
            XmlEvent::Eof => {
                ended = Some(DocStatus::Finished);
            },
            XmlEvent::Error => {
                ended = Some(DocStatus::Failed);
            },
            XmlEvent::Other => {},
        }
        proof {
            lemma_capped_next(r.prices);
            assert(render(wk, Seq::<Piece>::empty()) == wk);
            assert(wstate(*writer) == render(wk, s.pieces));
            lemma_render_concat(w0, r.pieces, s.pieces);
        }
        match ended {
            Some(status) => {
                proof {
                    assert(s.stop == Some(status));
                    lemma_run_stays(evs, k + 1, tag@);
                }
                return DocReport { status, prices };
            },
            None => {},
        }
        proof {
            assert(evs.skip(k).drop_first() =~= evs.skip(k + 1));
            k = k + 1;
        }
    }
}

// ------------------------------------------------------- many documents

/// Whether the reading of a document gives up on an unreadable link.
pub open spec fn gives_up(doc: Seq<u8>, tag: Seq<u8>) -> bool {
    feed_run(xml_events(doc), tag).stop == Some(DocStatus::Panicked)
}

/// The pieces that the documents contribute, one after the other.
pub open spec fn docs_pieces(docs: Seq<Seq<u8>>, tag: Seq<u8>) -> Seq<Piece>
    decreases docs.len(),
{
    if docs.len() == 0 {
        Seq::empty()
    } else {
        docs_pieces(docs.drop_last(), tag) + feed_run(xml_events(docs.last()), tag).pieces
    }
}

/// What the report of the reading of `doc` says.
pub open spec fn reports_on(report: DocReport, doc: Seq<u8>, tag: Seq<u8>) -> bool {
    let run = feed_run(xml_events(doc), tag);
    &&& run.stop == Some(report.status)
    &&& report.prices == capped(run.prices)
}

/// Writes an element `wrap` holding, for each document in turn, the copy
/// that `read_one` makes of its first element named `tag`. A document that
/// gives up on an unreadable link ends it all there: the element `wrap` is
/// left open and no later document is read. One report per document read.
pub fn copy_documents(wrap: &[u8], tag: &[u8], docs: &Vec<Vec<u8>>, writer: &mut XmlWriter) -> (reports:
    Vec<DocReport>)
    ensures
        reports.len() <= docs.len(),
        forall|i: int|
            0 <= i < reports.len() ==> reports_on(#[trigger] reports@[i], docs@[i]@, tag@),
        forall|i: int| 0 <= i < reports.len() - 1 ==> !gives_up(#[trigger] docs@[i]@, tag@),
        reports.len() < docs.len() ==> reports.len() > 0 && gives_up(
            docs@[reports.len() - 1]@,
            tag@,
        ),
        ({
            let read = docs@.take(reports.len() as int).map_values(|d: Vec<u8>| d@);
            let body = seq![Piece::Open(wrap@)] + docs_pieces(read, tag@);
            if reports.len() > 0 && gives_up(docs@[reports.len() - 1]@, tag@) {
                wstate(*final(writer)) == render(wstate(*old(writer)), body)
            } else {
                wstate(*final(writer)) == render(
                    wstate(*old(writer)),
                    body + seq![Piece::Close(wrap@)],
                )
            }
        }),
{
    let ghost w0 = wstate(*writer);
    start_tag(wrap, writer);
    proof {
        lemma_render_one(w0, Piece::Open(wrap@));
        assert(docs@.take(0).map_values(|d: Vec<u8>| d@) =~= Seq::<Seq<u8>>::empty());
        assert(seq![Piece::Open(wrap@)] + Seq::<Piece>::empty() =~= seq![Piece::Open(wrap@)]);
    }
    let mut reports: Vec<DocReport> = Vec::new();
    let mut i: usize = 0;
    while i < docs.len()
        invariant
            0 <= i <= docs.len(),
            reports.len() == i,
            w0 == wstate(*old(writer)),
            forall|j: int| 0 <= j < i ==> reports_on(#[trigger] reports@[j], docs@[j]@, tag@),
            forall|j: int| 0 <= j < i ==> !gives_up(#[trigger] docs@[j]@, tag@),
            wstate(*writer) == render(
                w0,
                seq![Piece::Open(wrap@)] + docs_pieces(
                    docs@.take(i as int).map_values(|d: Vec<u8>| d@),
                    tag@,
                ),
            ),
        decreases docs.len() - i,
    {
        let ghost wi = wstate(*writer);
        let ghost before = docs@.take(i as int).map_values(|d: Vec<u8>| d@);
        let ghost after = docs@.take(i + 1).map_values(|d: Vec<u8>| d@);
        let report = read_one(docs[i].as_slice(), tag, vec!["756"], writer);
        let stop = match report.status {
            DocStatus::Panicked => true,
            _ => false,
        };
        proof {
            assert(after.drop_last() =~= before);
            assert(after.last() == docs@[i as int]@);
            let run = feed_run(xml_events(docs@[i as int]@), tag@);
            lemma_render_concat(
                w0,
                seq![Piece::Open(wrap@)] + docs_pieces(before, tag@),
                run.pieces,
            );
            assert(seq![Piece::Open(wrap@)] + docs_pieces(before, tag@) + run.pieces
                =~= seq![Piece::Open(wrap@)] + docs_pieces(after, tag@));
        }
        reports.push(report);
        if stop {
            return reports;
        }
        i = i + 1;
    }
    let ghost wn = wstate(*writer);
    end_tag(wrap, writer);
    proof {
        let body = seq![Piece::Open(wrap@)] + docs_pieces(
            docs@.take(i as int).map_values(|d: Vec<u8>| d@),
            tag@,
        );
        lemma_render_one(wn, Piece::Close(wrap@));
        lemma_render_concat(w0, body, seq![Piece::Close(wrap@)]);
    }
    reports
}

// ------------------------------------------------------------------ laws

/// The reading of a document always comes to an end: it finishes, fails
/// or gives up by the end of the document's events.
pub proof fn law_reading_ends(evs: Seq<Ev>, tag: Seq<u8>)
    requires
        evs.len() > 0,
        is_final(evs.last()),
    ensures
        feed_run(evs, tag).stop is Some,
{
    let r = feed_run(evs.drop_last(), tag);
    if r.stop is None {
        assert(feed_step(r.st, evs.last(), tag).stop is Some);
    }
}

/// A document in which no element named `tag` opens contributes nothing
/// to the catalog, and no price.
pub proof fn law_no_tag_no_output(evs: Seq<Ev>, tag: Seq<u8>)
    requires
        forall|i: int| 0 <= i < evs.len() ==> !(#[trigger] evs[i] matches Ev::Start(n, _) && n == tag),
    ensures
        feed_run(evs, tag).pieces == Seq::<Piece>::empty(),
        feed_run(evs, tag).prices == 0,
        !feed_run(evs, tag).st.in_tag,
    decreases evs.len(),
{
    if evs.len() > 0 {
        assert forall|i: int| 0 <= i < evs.drop_last().len() implies !(#[trigger] evs.drop_last()[i] matches Ev::Start(
            n,
            _,
        ) && n == tag) by {
            assert(evs.drop_last()[i] == evs[i]);
        }
        law_no_tag_no_output(evs.drop_last(), tag);
        let r = feed_run(evs.drop_last(), tag);
        if r.stop is None {
            let e = evs.last();
            assert(evs[evs.len() - 1] == e);
            assert(r.pieces + Seq::<Piece>::empty() =~= r.pieces);
        }
    }
}

/// Once the reading of a document has stopped, the events after that
/// point change nothing.
pub proof fn law_feed_ignores_rest(evs1: Seq<Ev>, evs2: Seq<Ev>, tag: Seq<u8>)
    requires
        feed_run(evs1, tag).stop is Some,
    ensures
        feed_run(evs1 + evs2, tag) == feed_run(evs1, tag),
    decreases evs2.len(),
{
    if evs2.len() == 0 {
        assert(evs1 + evs2 =~= evs1);
    } else {
        law_feed_ignores_rest(evs1, evs2.drop_last(), tag);
        assert((evs1 + evs2).drop_last() =~= evs1 + evs2.drop_last());
    }
}

/// Unless `picture` elements are what is copied, no closing `picture` tag
/// is ever written: pictures close as `bibi`.
pub proof fn law_pictures_close_as_bibi(evs: Seq<Ev>, tag: Seq<u8>)
    requires
        tag != tag_picture(),
    ensures
        forall|i: int|
            0 <= i < feed_run(evs, tag).pieces.len() ==> #[trigger] feed_run(evs, tag).pieces[i]
                != Piece::Close(tag_picture()),
    decreases evs.len(),
{
    if evs.len() > 0 {
        law_pictures_close_as_bibi(evs.drop_last(), tag);
        let r = feed_run(evs.drop_last(), tag);
        if r.stop is None {
            let s = feed_step(r.st, evs.last(), tag);
            reveal_strlit("picture");
            reveal_strlit("bibi");
            reveal_strlit("destination-url-do-not-send-traffic");
            assert(tag_bibi() != tag_picture()) by {
                assert(tag_bibi().len() != tag_picture().len());
            }
            assert(tag_destination() != tag_picture()) by {
                assert(tag_destination().len() != tag_picture().len());
            }
            assert forall|j: int| 0 <= j < s.pieces.len() implies s.pieces[j] != Piece::Close(
                tag_picture(),
            ) by {}
            let all = r.pieces + s.pieces;
            assert forall|i: int| 0 <= i < all.len() implies #[trigger] all[i] != Piece::Close(
                tag_picture(),
            ) by {
                if i < r.pieces.len() {
                    assert(all[i] == r.pieces[i]);
                } else {
                    assert(all[i] == s.pieces[i - r.pieces.len()]);
                }
            }
        }
    }
}

// ------------------------------------------------------------- nesting

/// The bytes that may end a tag's name inside the tag.
pub open spec fn is_space(b: u8) -> bool {
    b == 32u8 || b == 9u8 || b == 10u8 || b == 13u8
}

/// Whether the content `c` of a tag opens the element `n`: it is the name
/// alone, or the name followed by a space and the attributes.
pub open spec fn names(c: Seq<u8>, n: Seq<u8>) -> bool {
    c == n || (n.len() < c.len() && c.subrange(0, n.len() as int) == n && is_space(
        c[n.len() as int],
    ))
}

/// The elements left open after one more event; `None` where a start tag
/// does not begin with its name or an end tag does not close the innermost
/// open element.
pub open spec fn element_step(o: Option<Seq<Seq<u8>>>, e: Ev) -> Option<Seq<Seq<u8>>> {
    match o {
        None => None,
        Some(s) => match e {
            Ev::Start(n, c) => if names(c, n) {
                Some(s.push(n))
            } else {
                None
            },
            Ev::End(n) => if s.len() > 0 && s.last() == n {
                Some(s.drop_last())
            } else {
                None
            },
            _ => Some(s),
        },
    }
}

/// The names of the elements that a sequence of events leaves open,
/// innermost last.
pub open spec fn open_elements(evs: Seq<Ev>) -> Option<Seq<Seq<u8>>>
    decreases evs.len(),
{
    if evs.len() == 0 {
        Some(Seq::empty())
    } else {
        element_step(open_elements(evs.drop_last()), evs.last())
    }
}

/// The tags left open after one more piece; `None` where a closing tag does
/// not close the innermost open tag.
pub open spec fn piece_step(o: Option<Seq<Seq<u8>>>, p: Piece) -> Option<Seq<Seq<u8>>> {
    match o {
        None => None,
        Some(s) => match p {
            Piece::Open(c) => Some(s.push(c)),
            Piece::Close(n) => if s.len() > 0 && names(s.last(), n) {
                Some(s.drop_last())
            } else {
                None
            },
            _ => Some(s),
        },
    }
}

/// The contents of the tags that a sequence of pieces leaves open,
/// innermost last.
pub open spec fn open_pieces(ps: Seq<Piece>) -> Option<Seq<Seq<u8>>>
    decreases ps.len(),
{
    if ps.len() == 0 {
        Some(Seq::empty())
    } else {
        piece_step(open_pieces(ps.drop_last()), ps.last())
    }
}

/// Every closing tag closes the innermost open tag, under the name it was
/// opened with, and no tag stays open.
pub open spec fn balanced(ps: Seq<Piece>) -> bool {
    open_pieces(ps) == Some(Seq::<Seq<u8>>::empty())
}

/// The events of a well-formed document: every start tag begins with its
/// name, every end tag closes the innermost open element, every element is
/// closed, and the events run to the end of the document without error.
pub open spec fn well_formed(evs: Seq<Ev>) -> bool {
    &&& evs.len() > 0
    &&& evs.last() is Eof
    &&& forall|i: int| 0 <= i < evs.len() - 1 ==> !is_final(#[trigger] evs[i])
    &&& open_elements(evs) == Some(Seq::<Seq<u8>>::empty())
}

pub open spec fn opens_tag(e: Ev, tag: Seq<u8>) -> bool {
    e matches Ev::Start(n, _) && n == tag
}

pub open spec fn tag_is_open(evs: Seq<Ev>, tag: Seq<u8>) -> bool {
    match open_elements(evs) {
        Some(s) => s.contains(tag),
        None => false,
    }
}

/// No element named `tag` opens inside another element named `tag`.
pub open spec fn tag_not_nested(evs: Seq<Ev>, tag: Seq<u8>) -> bool {
    forall|j: int|
        0 <= j < evs.len() && #[trigger] opens_tag(evs[j], tag) ==> !tag_is_open(evs.take(j), tag)
}

/// The name under which the copy closes the element `n`.
pub open spec fn written_name(n: Seq<u8>) -> Seq<u8> {
    if n == tag_picture() {
        tag_bibi()
    } else {
        n
    }
}

/// How the tags open in the copy follow the elements open in the
/// document: the copied element was opened at depth `d`, and each tag open
/// in the copy names the element open in the document at the same depth.
pub open spec fn copy_follows(
    s: Seq<Seq<u8>>,
    p: Seq<Seq<u8>>,
    in_tag: bool,
    d: int,
    tag: Seq<u8>,
) -> bool {
    if in_tag {
        &&& 0 <= d < s.len()
        &&& s[d] == tag
        &&& forall|i: int| d < i < s.len() ==> #[trigger] s[i] != tag
        &&& p.len() == s.len() - d
        &&& names(p[0], tag)
        &&& forall|i: int| 0 < i < p.len() ==> names(#[trigger] p[i], written_name(s[d + i]))
    } else {
        p.len() == 0
    }
}

proof fn lemma_pieces_push(a: Seq<Piece>, x: Piece)
    ensures
        open_pieces(a.push(x)) == piece_step(open_pieces(a), x),
{
    assert(a.push(x).drop_last() =~= a);
}

proof fn lemma_pieces_one(a: Seq<Piece>, x: Piece)
    ensures
        open_pieces(a + seq![x]) == piece_step(open_pieces(a), x),
{
    assert(a + seq![x] =~= a.push(x));
    lemma_pieces_push(a, x);
}

proof fn lemma_pieces_none(a: Seq<Piece>)
    ensures
        open_pieces(a + Seq::<Piece>::empty()) == open_pieces(a),
{
    assert(a + Seq::<Piece>::empty() =~= a);
}

/// Text in the copied element opens and closes nothing.
proof fn lemma_text_pieces_neutral(a: Seq<Piece>, name: Seq<u8>, t: Seq<u8>)
    requires
        text_pieces(name, t) is Some,
    ensures
        open_pieces(a + text_pieces(name, t)->0) == open_pieces(a),
{
    let ps = text_pieces(name, t)->0;
    if ps.len() == 0 {
        lemma_pieces_none(a);
    } else if ps.len() == 1 {
        assert(ps =~= seq![ps[0]]);
        lemma_pieces_one(a, ps[0]);
    } else {
        let x = Piece::Open(tag_destination());
        let y = ps[1];
        let z = Piece::Close(tag_destination());
        assert(a + ps =~= a.push(x).push(y).push(z));
        lemma_pieces_push(a, x);
        lemma_pieces_push(a.push(x), y);
        lemma_pieces_push(a.push(x).push(y), z);
    }
}

proof fn lemma_copy_running(evs: Seq<Ev>, tag: Seq<u8>) -> (d: int)
    requires
        open_elements(evs) is Some,
        forall|i: int| 0 <= i < evs.len() ==> !is_final(#[trigger] evs[i]),
        tag_not_nested(evs, tag),
    ensures
        open_pieces(feed_run(evs, tag).pieces) is Some,
        feed_run(evs, tag).stop is None ==> copy_follows(
            open_elements(evs)->0,
            open_pieces(feed_run(evs, tag).pieces)->0,
            feed_run(evs, tag).st.in_tag,
            d,
            tag,
        ),
        feed_run(evs, tag).stop matches Some(st) ==> (st is Panicked || (st is Finished
            && balanced(feed_run(evs, tag).pieces))),
    decreases evs.len(),
{
    if evs.len() == 0 {
        return 0;
    }
    let pre = evs.drop_last();
    assert forall|i: int| 0 <= i < pre.len() implies !is_final(#[trigger] pre[i]) by {
        assert(pre[i] == evs[i]);
    }
    assert forall|j: int| 0 <= j < pre.len() && #[trigger] opens_tag(pre[j], tag) implies !tag_is_open(
        pre.take(j),
        tag,
    ) by {
        assert(pre[j] == evs[j]);
        assert(pre.take(j) =~= evs.take(j));
    }
    let d0 = lemma_copy_running(pre, tag);
    let r = feed_run(pre, tag);
    if r.stop is Some {
        return d0;
    }
    let e = evs.last();
    assert(evs[evs.len() - 1] == e);
    assert(!is_final(e));
    let s = open_elements(pre)->0;
    let p = open_pieces(r.pieces)->0;
    let step = feed_step(r.st, e, tag);
    let in_tag = r.st.in_tag;
    reveal_strlit("picture");
    reveal_strlit("bibi");
    reveal_strlit("url");
    assert(tag_url() != tag_picture()) by {
        assert(tag_url().len() != tag_picture().len());
    }
    match e {
        Ev::Start(n, c) => {
            assert(names(c, n));
            let s2 = s.push(n);
            if in_tag && n != tag {
                let x = start_pieces(n, c)[0];
                assert(start_pieces(n, c) =~= seq![x]);
                lemma_pieces_one(r.pieces, x);
                assert(x matches Piece::Open(xc) && names(xc, written_name(n)));
                let p2 = p.push(x->Open_0);
                assert(open_pieces(r.pieces + step.pieces)->0 == p2);
                assert forall|i: int| d0 < i < s2.len() implies #[trigger] s2[i] != tag by {
                    if i < s.len() {
                        assert(s2[i] == s[i]);
                    }
                }
                assert forall|i: int| 0 < i < p2.len() implies names(
                    #[trigger] p2[i],
                    written_name(s2[d0 + i]),
                ) by {
                    if i < p.len() {
                        assert(p2[i] == p[i]);
                        assert(s2[d0 + i] == s[d0 + i]);
                    }
                }
                return d0;
            } else if !in_tag && n == tag {
                lemma_pieces_one(r.pieces, Piece::Open(c));
                assert(p.len() == 0);
                let p2 = p.push(c);
                assert(p2[0] == c);
                return s.len() as int;
            } else if in_tag && n == tag {
                assert(opens_tag(evs[evs.len() - 1], tag));
                assert(evs.take(evs.len() - 1) =~= pre);
                assert(s.contains(tag)) by {
                    assert(s[d0] == tag);
                }
                assert(false);
                return d0;
            } else {
                lemma_pieces_none(r.pieces);
                return d0;
            }
        },
        Ev::End(n) => {
            assert(s.len() > 0 && s.last() == n);
            let s2 = s.drop_last();
            if in_tag && n != tag {
                let x = Piece::Close(written_name(n));
                assert(end_pieces(n) =~= seq![x]);
                lemma_pieces_one(r.pieces, x);
                assert(d0 < s.len() - 1) by {
                    assert(s[s.len() - 1] == n);
                }
                assert(p.len() >= 2);
                let k = p.len() - 1;
                assert(names(p[k], written_name(s[d0 + k])));
                assert(s[d0 + k] == n);
                assert(p.last() == p[k]);
                let p2 = p.drop_last();
                assert(open_pieces(r.pieces + step.pieces)->0 == p2);
                assert forall|i: int| d0 < i < s2.len() implies #[trigger] s2[i] != tag by {
                    assert(s2[i] == s[i]);
                }
                assert forall|i: int| 0 < i < p2.len() implies names(
                    #[trigger] p2[i],
                    written_name(s2[d0 + i]),
                ) by {
                    assert(p2[i] == p[i]);
                    assert(s2[d0 + i] == s[d0 + i]);
                }
                return d0;
            } else if in_tag && n == tag {
                let x = Piece::Close(n);
                lemma_pieces_one(r.pieces, x);
                assert(d0 == s.len() - 1) by {
                    if d0 < s.len() - 1 {
                        assert(s[s.len() - 1] != tag);
                    }
                }
                assert(p.len() == 1);
                assert(p.last() == p[0]);
                assert(p.drop_last() =~= Seq::<Seq<u8>>::empty());
                return d0;
            } else {
                lemma_pieces_none(r.pieces);
                return d0;
            }
        },
        Ev::Text(t) => {
            if in_tag && text_pieces(r.st.name, t) is Some {
                lemma_text_pieces_neutral(r.pieces, r.st.name, t);
            } else if !in_tag {
                lemma_pieces_none(r.pieces);
            }
            return d0;
        },
        Ev::CData(t) => {
            if in_tag && text_pieces(r.st.name, t) is Some {
                lemma_text_pieces_neutral(r.pieces, r.st.name, t);
            } else if !in_tag {
                lemma_pieces_none(r.pieces);
            }
            return d0;
        },
        Ev::Empty(_n, c) => {
            if in_tag {
                lemma_pieces_one(r.pieces, Piece::SelfClosing(c));
            } else {
                lemma_pieces_none(r.pieces);
            }
            return d0;
        },
        _ => {
            lemma_pieces_none(r.pieces);
            return d0;
        },
    }
}

/// The copy of a well-formed document, in which no element named `tag`
/// lies inside another, is one balanced element: unless a link cannot be
/// read, the reading finishes, every closing tag written closes the
/// innermost open tag under the name it was opened with (a picture opens
/// and closes as `bibi`), and no tag is left open.
pub proof fn law_copy_is_balanced(evs: Seq<Ev>, tag: Seq<u8>)
    requires
        well_formed(evs),
        tag_not_nested(evs, tag),
    ensures
        feed_run(evs, tag).stop is Some,
        feed_run(evs, tag).stop != Some(DocStatus::Panicked) ==> feed_run(evs, tag).stop == Some(
            DocStatus::Finished,
        ) && balanced(feed_run(evs, tag).pieces),
{
    let pre = evs.drop_last();
    assert forall|i: int| 0 <= i < pre.len() implies !is_final(#[trigger] pre[i]) by {
        assert(pre[i] == evs[i]);
    }
    assert forall|j: int| 0 <= j < pre.len() && #[trigger] opens_tag(pre[j], tag) implies !tag_is_open(
        pre.take(j),
        tag,
    ) by {
        assert(pre[j] == evs[j]);
        assert(pre.take(j) =~= evs.take(j));
    }
    let d = lemma_copy_running(pre, tag);
    let r = feed_run(pre, tag);
    if r.stop is None {
        assert(open_elements(evs) == open_elements(pre));
        lemma_pieces_none(r.pieces);
        let p = open_pieces(r.pieces)->0;
        assert(p =~= Seq::<Seq<u8>>::empty());
    }
}

// ------------------------------------------------- the current name

/// Inside the copied element, an opening tag named `n` (other than the
/// copied tag) makes `n` the current name, whatever `n` is: the text that
/// follows it is handled by that name.
pub proof fn law_opening_tag_sets_the_name(evs: Seq<Ev>, tag: Seq<u8>, n: Seq<u8>, c: Seq<u8>)
    requires
        feed_run(evs, tag).stop is None,
        feed_run(evs, tag).st.in_tag,
        n != tag,
    ensures
        feed_run(evs.push(Ev::Start(n, c)), tag).stop is None,
        feed_run(evs.push(Ev::Start(n, c)), tag).st == (FeedState { in_tag: true, name: n }),
{
    assert(evs.push(Ev::Start(n, c)).drop_last() =~= evs);
}

/// Inside the copied element, text that follows an opening tag other than
/// `picture`, `url` and `price` is copied as it is, after the tag, and is
/// not counted as a price.
pub proof fn law_text_after_other_tag_is_copied(
    evs: Seq<Ev>,
    tag: Seq<u8>,
    n: Seq<u8>,
    c: Seq<u8>,
    t: Seq<u8>,
)
    requires
        feed_run(evs, tag).stop is None,
        feed_run(evs, tag).st.in_tag,
        n != tag,
        n != tag_picture(),
        n != tag_url(),
        n != tag_price(),
    ensures
        ({
            let r = feed_run(evs, tag);
            let r2 = feed_run(evs + seq![Ev::Start(n, c), Ev::Text(t)], tag);
            &&& r2.stop is None
            &&& r2.pieces == r.pieces + seq![Piece::Open(c), Piece::Chars(t)]
            &&& r2.prices == r.prices
        }),
{
    let e1 = evs.push(Ev::Start(n, c));
    let e2 = evs + seq![Ev::Start(n, c), Ev::Text(t)];
    assert(e1.drop_last() =~= evs);
    assert(e2.drop_last() =~= e1);
    assert(e2.last() == Ev::Text(t));
    let r = feed_run(evs, tag);
    let r1 = feed_run(e1, tag);
    assert(r1.pieces == r.pieces + seq![Piece::Open(c)]);
    assert(r.pieces + seq![Piece::Open(c)] + seq![Piece::Chars(t)] =~= r.pieces + seq![
        Piece::Open(c),
        Piece::Chars(t),
    ]);
}

} // verus!
