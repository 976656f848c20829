//! The boundary with quick-xml: its reader, over a document held in
//! memory, hands out events; its writer, over an in-memory cursor, lays
//! out what the feed rewriting writes. Everything stated here of quick-xml
//! is trusted; the rest of the crate is proved against it.
use vstd::prelude::*;
use quick_xml::events::{BytesEnd, BytesStart, BytesText, Event};
use quick_xml::{Reader, Writer};
use std::io::Cursor;
use vstd::utf8::encode_utf8;

verus! {

/// quick-xml's writer over an in-memory cursor, held opaquely: Verus does
/// not take a declaration of `quick_xml::Writer`, whose parameter is
/// bounded by `std::io::Write`.
#[verifier::external_body]
pub struct XmlWriter {
    inner: Writer<Cursor<Vec<u8>>>,
}

/// quick-xml's reader over a document in memory, held opaquely for the
/// same reason (`std::io::BufRead`).
#[verifier::external_body]
pub struct EventReader<'a> {
    inner: Reader<&'a [u8]>,
}

// ---------------------------------------------------------------- events

/// An event of a document, as the reader hands it out. Names and contents
/// are raw bytes; text and character data are in escaped form.
pub enum XmlEvent {
    /// An opening tag: its name, and its whole content (name and attributes).
    Start(Vec<u8>, Vec<u8>),
    /// A self-closing tag: its name and its whole content.
    Empty(Vec<u8>, Vec<u8>),
    /// A closing tag: its name.
    End(Vec<u8>),
    /// Text, escaped.
    Text(Vec<u8>),
    /// Character data, escaped.
    CData(Vec<u8>),
    /// A comment, declaration, processing instruction or doctype.
    Other,
    /// The end of the document.
    Eof,
    /// The reader found the document malformed.
    Error,
}

/// The mathematical form of an [`XmlEvent`].
pub enum Ev {
    Start(Seq<u8>, Seq<u8>),
    Empty(Seq<u8>, Seq<u8>),
    End(Seq<u8>),
    Text(Seq<u8>),
    CData(Seq<u8>),
    Other,
    Eof,
    Error,
}

impl View for XmlEvent {
    type V = Ev;

    open spec fn view(&self) -> Ev {
        match self {
            XmlEvent::Start(name, content) => Ev::Start(name@, content@),
            XmlEvent::Empty(name, content) => Ev::Empty(name@, content@),
            XmlEvent::End(name) => Ev::End(name@),
            XmlEvent::Text(escaped) => Ev::Text(escaped@),
            XmlEvent::CData(escaped) => Ev::CData(escaped@),
            XmlEvent::Other => Ev::Other,
            XmlEvent::Eof => Ev::Eof,
            XmlEvent::Error => Ev::Error,
        }
    }
}

/// Whether the reader stops after handing out this event.
pub open spec fn is_final(e: Ev) -> bool {
    e is Eof || e is Error
}

/// The events quick-xml's reader, with text trimming on, finds in a
/// document, up to the end of the document or the first error.
pub uninterp spec fn xml_events(doc: Seq<u8>) -> Seq<Ev>;

/// The events a reader has yet to hand out.
pub uninterp spec fn pending(r: EventReader) -> Seq<Ev>;

/// `Reader::from_reader` over a document in memory, then `trim_text(true)`.
/// Claimed: the reader will hand out the document's events, a finite
/// sequence that ends with the end of the document or an error.
#[verifier::external_body]
pub(crate) fn open_reader<'a>(doc: &'a [u8]) -> (r: EventReader<'a>)
    ensures
        pending(r) == xml_events(doc@),
        pending(r).len() > 0,
        is_final(pending(r).last()),
{
    let mut inner = Reader::from_reader(doc);
    inner.trim_text(true);
    EventReader { inner }
}

/// `Reader::read_event`, with the event copied out of the buffer. Claimed:
/// it hands out the first pending event; once it has handed out the end of
/// the document or an error, it only hands out the end of the document.
#[verifier::external_body]
pub(crate) fn next_event(r: &mut EventReader) -> (e: XmlEvent)
    requires
        pending(*old(r)).len() > 0,
    ensures
        e@ == pending(*old(r))[0],
        pending(*final(r)) == (if is_final(e@) {
            seq![Ev::Eof]
        } else {
            pending(*old(r)).drop_first()
        }),
{
    let mut buf = Vec::new();
    match r.inner.read_event(&mut buf) {
        Ok(Event::Start(e)) => XmlEvent::Start(e.name().to_vec(), e.to_vec()),
        Ok(Event::Empty(e)) => XmlEvent::Empty(e.name().to_vec(), e.to_vec()),
        Ok(Event::End(e)) => XmlEvent::End(e.name().to_vec()),
        Ok(Event::Text(e)) => XmlEvent::Text(e.escaped().to_vec()),
        Ok(Event::CData(e)) => XmlEvent::CData(e.escaped().to_vec()),
        Ok(Event::Eof) => XmlEvent::Eof,
        Ok(_) => XmlEvent::Other,
        Err(_) => XmlEvent::Error,
    }
}

// -------------------------------------------------------------- escaping

/// How quick-xml escapes one byte of plain text.
pub open spec fn escape_byte(b: u8) -> Seq<u8> {
    if b == 60u8 {
        seq![38u8, 108, 116, 59]  // &lt;
    } else if b == 62u8 {
        seq![38u8, 103, 116, 59]  // &gt;
    } else if b == 39u8 {
        seq![38u8, 97, 112, 111, 115, 59]  // &apos;
    } else if b == 38u8 {
        seq![38u8, 97, 109, 112, 59]  // &amp;
    } else if b == 34u8 {
        seq![38u8, 113, 117, 111, 116, 59]  // &quot;
    } else {
        seq![b]
    }
}

/// Plain text in the escaped form that quick-xml writes.
pub open spec fn xml_escape(s: Seq<u8>) -> Seq<u8>
    decreases s.len(),
{
    if s.len() == 0 {
        Seq::empty()
    } else {
        xml_escape(s.drop_last()) + escape_byte(s.last())
    }
}

/// What `quick_xml::escape::unescape` makes of escaped text (`None` when
/// it finds an entity it cannot resolve).
pub uninterp spec fn xml_unescape(raw: Seq<u8>) -> Option<Seq<u8>>;

/// `quick_xml::escape::unescape`. Claimed: its result is `xml_unescape`
/// of the text, and text without any `&` comes back unchanged.
#[verifier::external_body]
pub(crate) fn unescape(raw: &[u8]) -> (r: Option<Vec<u8>>)
    ensures
        r is Some <==> xml_unescape(raw@) is Some,
        r matches Some(v) ==> xml_unescape(raw@) == Some(v@),
        r is None ==> raw@.contains(38u8),
        r matches Some(v) ==> (!raw@.contains(38u8) ==> v@ == raw@),
{
    match quick_xml::escape::unescape(raw) {
        Ok(c) => Some(c.into_owned()),
        Err(_) => None,
    }
}

// ---------------------------------------------------------------- output

/// A piece of output, as the writer is handed it.
pub enum Piece {
    /// `<content>`
    Open(Seq<u8>),
    /// `</name>`
    Close(Seq<u8>),
    /// `<content/>`
    SelfClosing(Seq<u8>),
    /// Escaped text, written as it is.
    Chars(Seq<u8>),
    /// `<![CDATA[text]]>`, the text escaped.
    CData(Seq<u8>),
}

pub open spec fn piece_bytes(p: Piece) -> Seq<u8> {
    match p {
        Piece::Open(c) => seq![60u8] + c + seq![62u8],
        Piece::Close(n) => seq![60u8, 47u8] + n + seq![62u8],
        Piece::SelfClosing(c) => seq![60u8] + c + seq![47u8, 62u8],
        Piece::Chars(t) => t,
        Piece::CData(t) => seq![60u8, 33, 91, 67, 68, 65, 84, 65, 91] + t + seq![93u8, 93, 62],
    }
}

/// The state of a writer: what it has written, how it indents (the indent
/// byte and how many of them a level takes; `None` for no indentation),
/// how many indent bytes the current level takes, and whether the next tag
/// starts on a new line.
pub struct WState {
    pub bytes: Seq<u8>,
    pub indent: Option<(u8, nat)>,
    pub level: nat,
    pub line_break: bool,
}

/// What is written before a tag: a line feed and the indentation, when the
/// writer indents and the last thing written was a tag.
pub open spec fn layout(st: WState) -> Seq<u8> {
    match st.indent {
        Some((c, _)) => if st.line_break {
            seq![10u8] + Seq::new(st.level, |i: int| c)
        } else {
            Seq::empty()
        },
        None => Seq::empty(),
    }
}

/// The writer's state after it was handed the piece `p`.
pub open spec fn put(st: WState, p: Piece) -> WState {
    match st.indent {
        None => WState { bytes: st.bytes + piece_bytes(p), ..st },
        Some((_c, size)) => match p {
            Piece::Open(_) => WState {
                bytes: st.bytes + layout(st) + piece_bytes(p),
                level: st.level + size,
                line_break: true,
                ..st
            },
            Piece::Close(_) => {
                let level: nat = if st.level >= size {
                    (st.level - size) as nat
                } else {
                    0
                };
                let shrunk = WState { level, ..st };
                WState {
                    bytes: st.bytes + layout(shrunk) + piece_bytes(p),
                    level,
                    line_break: true,
                    ..st
                }
            },
            Piece::SelfClosing(_) => WState {
                bytes: st.bytes + layout(st) + piece_bytes(p),
                line_break: true,
                ..st
            },
            _ => WState { bytes: st.bytes + piece_bytes(p), line_break: false, ..st },
        },
    }
}

/// The writer's state after it was handed the pieces `ps`, in order.
pub open spec fn render(st: WState, ps: Seq<Piece>) -> WState
    decreases ps.len(),
{
    if ps.len() == 0 {
        st
    } else {
        put(render(st, ps.drop_last()), ps.last())
    }
}

pub proof fn lemma_render_one(st: WState, p: Piece)
    ensures
        render(st, seq![p]) == put(st, p),
{
    let one = seq![p];
    assert(one.drop_last() =~= Seq::<Piece>::empty());
    assert(one.last() == p);
    assert(render(st, one.drop_last()) == st);
}

pub proof fn lemma_render_concat(st: WState, p1: Seq<Piece>, p2: Seq<Piece>)
    ensures
        render(st, p1 + p2) == render(render(st, p1), p2),
    decreases p2.len(),
{
    if p2.len() == 0 {
        assert(p1 + p2 =~= p1);
    } else {
        lemma_render_concat(st, p1, p2.drop_last());
        assert((p1 + p2).drop_last() =~= p1 + p2.drop_last());
        assert((p1 + p2).last() == p2.last());
    }
}

/// The bytes of the pieces, one after the other.
pub open spec fn pieces_bytes(ps: Seq<Piece>) -> Seq<u8>
    decreases ps.len(),
{
    if ps.len() == 0 {
        Seq::empty()
    } else {
        pieces_bytes(ps.drop_last()) + piece_bytes(ps.last())
    }
}

/// Rendering only ever appends, and keeps how the writer indents.
pub proof fn law_rendering_appends(st: WState, ps: Seq<Piece>)
    ensures
        st.bytes.len() <= render(st, ps).bytes.len(),
        render(st, ps).bytes.take(st.bytes.len() as int) == st.bytes,
        render(st, ps).indent == st.indent,
    decreases ps.len(),
{
    if ps.len() > 0 {
        law_rendering_appends(st, ps.drop_last());
        let m = render(st, ps.drop_last());
        let n = render(st, ps);
        assert(n.bytes.take(m.bytes.len() as int) =~= m.bytes);
        assert(n.bytes.take(st.bytes.len() as int) =~= m.bytes.take(st.bytes.len() as int));
    }
}

/// A writer that does not indent writes the bytes of the pieces and
/// nothing else.
pub proof fn law_plain_rendering(st: WState, ps: Seq<Piece>)
    requires
        st.indent is None,
    ensures
        render(st, ps).bytes == st.bytes + pieces_bytes(ps),
        render(st, ps).indent is None,
    decreases ps.len(),
{
    if ps.len() == 0 {
        assert(st.bytes + pieces_bytes(ps) =~= st.bytes);
    } else {
        law_plain_rendering(st, ps.drop_last());
        assert(render(st, ps).bytes =~= st.bytes + pieces_bytes(ps));
    }
}

/// The bytes that a writer has written to its cursor.
pub uninterp spec fn written(w: XmlWriter) -> Seq<u8>;

/// How a writer indents: the indent byte and the number of them per level
/// it was made with, `None` when it does not indent.
pub uninterp spec fn writer_indent(w: XmlWriter) -> Option<(u8, nat)>;

/// How many indent bytes the writer's current level takes.
pub uninterp spec fn indent_level(w: XmlWriter) -> nat;

/// Whether the writer starts its next tag on a new line.
pub uninterp spec fn line_break(w: XmlWriter) -> bool;

pub open spec fn wstate(w: XmlWriter) -> WState {
    WState {
        bytes: written(w),
        indent: writer_indent(w),
        level: indent_level(w),
        line_break: line_break(w),
    }
}

/// `Writer::new_with_indent` over an empty `Cursor`, indenting by two
/// spaces. Claimed: nothing is written yet, at level zero, and the first
/// tag does not start on a new line.
#[verifier::external_body]
fn new_writer() -> (w: XmlWriter)
    ensures
        written(w) == Seq::<u8>::empty(),
        writer_indent(w) == Some((32u8, 2nat)),
        indent_level(w) == 0,
        !line_break(w),
{
    XmlWriter { inner: Writer::new_with_indent(Cursor::new(Vec::new()), 32u8, 2) }
}

/// `Writer::new` over an empty `Cursor`. Claimed: nothing is written yet,
/// and the writer does not indent.
#[verifier::external_body]
fn new_plain_writer() -> (w: XmlWriter)
    ensures
        written(w) == Seq::<u8>::empty(),
        writer_indent(w) is None,
{
    XmlWriter { inner: Writer::new(Cursor::new(Vec::new())) }
}

/// `Writer::into_inner`, then `Cursor::into_inner`. Claimed: the bytes
/// written.
#[verifier::external_body]
fn into_bytes(w: XmlWriter) -> (r: Vec<u8>)
    ensures
        r@ == written(w),
{
    w.inner.into_inner().into_inner()
}

/// `Writer::write_event` with a start tag. Claimed: the bytes, the layout
/// and the state change of `put`. `write_event` fails only where the
/// underlying writer does, and writing into a `Cursor` over a `Vec` does
/// not fail, so the write goes through.
#[verifier::external_body]
pub(crate) fn write_open(w: &mut XmlWriter, content: &[u8])
    ensures
        wstate(*final(w)) == put(wstate(*old(w)), Piece::Open(content@)),
{
    let _ = w.inner.write_event(Event::Start(BytesStart::borrowed_name(content)));
}

/// `Writer::write_event` with an end tag. Claimed as for `write_open`.
#[verifier::external_body]
pub(crate) fn write_close(w: &mut XmlWriter, name: &[u8])
    ensures
        wstate(*final(w)) == put(wstate(*old(w)), Piece::Close(name@)),
{
    let _ = w.inner.write_event(Event::End(BytesEnd::borrowed(name)));
}

/// `Writer::write_event` with a self-closing tag. Claimed as for
/// `write_open`.
#[verifier::external_body]
pub(crate) fn write_self_closing(w: &mut XmlWriter, content: &[u8])
    ensures
        wstate(*final(w)) == put(wstate(*old(w)), Piece::SelfClosing(content@)),
{
    let _ = w.inner.write_event(Event::Empty(BytesStart::borrowed_name(content)));
}

/// `Writer::write_event` with escaped text. Claimed as for `write_open`:
/// the text is appended as it is.
#[verifier::external_body]
pub(crate) fn write_chars(w: &mut XmlWriter, escaped: &[u8])
    ensures
        wstate(*final(w)) == put(wstate(*old(w)), Piece::Chars(escaped@)),
{
    let _ = w.inner.write_event(Event::Text(BytesText::from_escaped(escaped)));
}

/// `Writer::write_event` with character data made by
/// `BytesText::from_plain_str`. Claimed as for `write_open`: the escaped
/// text is appended inside a CDATA section.
#[verifier::external_body]
pub(crate) fn write_cdata(w: &mut XmlWriter, text: &str)
    ensures
        wstate(*final(w)) == put(wstate(*old(w)), Piece::CData(xml_escape(encode_utf8(text@)))),
{
    let _ = w.inner.write_event(Event::CData(BytesText::from_plain_str(text)));
}

/// A writer for a catalog: nothing written yet, tags indented by two
/// spaces.
pub fn catalog_writer() -> (w: XmlWriter)
    ensures
        wstate(w) == (WState {
            bytes: Seq::empty(),
            indent: Some((32u8, 2nat)),
            level: 0,
            line_break: false,
        }),
{
    new_writer()
}

/// A writer that does not indent: it writes the bytes of the pieces and
/// nothing else (see `law_plain_rendering`).
pub fn plain_writer() -> (w: XmlWriter)
    ensures
        written(w) == Seq::<u8>::empty(),
        writer_indent(w) is None,
{
    new_plain_writer()
}

/// The bytes written to a writer.
pub fn catalog_bytes(w: XmlWriter) -> (r: Vec<u8>)
    ensures
        r@ == written(w),
{
    into_bytes(w)
}

} // verus!
