//! The offer filter: a feed is read in `>`-terminated chunks, each decoded
//! as UTF-8 and trimmed, and the chunks inside `offer` elements of the
//! `offers` list are copied into a new catalog.
use vstd::prelude::*;
use vstd::utf8::{decode_utf8, encode_utf8, valid_utf8};
use crate::bytes::{
    ascii, chunk_end, chunks, chunks_from, copy_range, ends_with, has_prefix, has_suffix,
    lemma_chunk_end, lit, next_chunk_end, push_all, starts_with,
};
use crate::text::{decode, trim, trim_ws};

verus! {

/// Which of the tracked tags are open, and whether reading should stop:
/// the set of tag names that the filter keeps, over the only names it ever
/// holds.
#[derive(Clone, Copy)]
pub struct TagContext {
    pub offers: bool,
    pub offer: bool,
    pub price: bool,
    pub category_id: bool,
    pub stop: bool,
}

/// `<name>`, `<name ` and `</name>` of a tracked tag.
pub open spec fn opens(c: Seq<u8>, name: Seq<char>) -> bool {
    has_prefix(c, ascii(seq!['<'] + name + seq!['>'])) || has_prefix(
        c,
        ascii(seq!['<'] + name + seq![' ']),
    )
}

pub open spec fn closes(c: Seq<u8>, name: Seq<char>) -> bool {
    has_suffix(c, ascii(seq!['<', '/'] + name + seq!['>']))
}

/// A tracked tag after a chunk: it closes on its closing tag, and opens
/// (again) on its opening tag.
pub open spec fn tag_flag(open: bool, c: Seq<u8>, name: Seq<char>) -> bool {
    (open && !closes(c, name)) || opens(c, name)
}

/// One trimmed chunk: the new context and what is written for it.
pub open spec fn offers_chunk(ctx: TagContext, c: Seq<u8>) -> (TagContext, Seq<u8>) {
    let offers_closing = ctx.offers && closes(c, "offers"@);
    let offers = ctx.offers && !offers_closing;
    let stop = ctx.stop || offers_closing;
    if !(offers || opens(c, "offers"@)) {
        (TagContext { offers, stop, ..ctx }, Seq::empty())
    } else {
        let offer_closing = ctx.offer && closes(c, "offer"@);
        let closing = if offer_closing {
            ascii("</offer>"@)
        } else {
            Seq::empty()
        };
        let offer = ctx.offer && !offer_closing;
        if !(offer || opens(c, "offer"@)) {
            (TagContext { offers: true, offer, stop, ..ctx }, closing)
        } else {
            (
                TagContext {
                    offers: true,
                    offer: true,
                    price: tag_flag(ctx.price, c, "price"@),
                    category_id: tag_flag(ctx.category_id, c, "categoryId"@),
                    stop,
                },
                closing + c,
            )
        }
    }
}

/// A chunk decoded and trimmed, as bytes.
pub open spec fn trimmed(chunk: Seq<u8>) -> Seq<u8> {
    encode_utf8(trim_ws(decode_utf8(chunk)))
}

/// Where the filter stands.
pub struct OffersRun {
    pub ctx: TagContext,
    /// What was written after the opening tags of the catalog.
    pub out: Seq<u8>,
    /// A chunk was not UTF-8: the program panics there.
    pub bad_chunk: bool,
}

pub open spec fn no_tags() -> TagContext {
    TagContext { offers: false, offer: false, price: false, category_id: false, stop: false }
}

pub open spec fn offers_run(cs: Seq<Seq<u8>>) -> OffersRun
    decreases cs.len(),
{
    if cs.len() == 0 {
        OffersRun { ctx: no_tags(), out: Seq::empty(), bad_chunk: false }
    } else {
        let r = offers_run(cs.drop_last());
        if r.ctx.stop || r.bad_chunk {
            r
        } else if !valid_utf8(cs.last()) {
            OffersRun { bad_chunk: true, ..r }
        } else {
            let (ctx, o) = offers_chunk(r.ctx, trimmed(cs.last()));
            OffersRun { ctx, out: r.out + o, bad_chunk: false }
        }
    }
}

pub open spec fn catalog_head() -> Seq<u8> {
    ascii("<yml_catalog><shop><offers>"@)
}

pub open spec fn catalog_tail() -> Seq<u8> {
    ascii("</offers></shop></yml_catalog>"@)
}

/// What the filter writes for a feed.
pub struct OffersOutput {
    /// The catalog file, as far as it gets written.
    pub file: Vec<u8>,
    /// Every chunk read was UTF-8; when `false`, the program panics after
    /// writing `file`.
    pub complete: bool,
}

fn flag_exec(open: bool, c: &[u8], open_a: &[u8], open_b: &[u8], close: &[u8]) -> (r: bool)
    ensures
        r == ((open && !has_suffix(c@, close@)) || has_prefix(c@, open_a@) || has_prefix(c@, open_b@)),
{
    let mut f = open;
    if f && ends_with(c, close) {
        f = false;
    }
    if f || starts_with(c, open_a) || starts_with(c, open_b) {
        f = true;
    }
    f
}

fn offers_chunk_exec(ctx: &mut TagContext, c: &[u8], out: &mut Vec<u8>)
    requires
        !old(ctx).stop,
    ensures
        *final(ctx) == offers_chunk(*old(ctx), c@).0,
        final(out)@ == old(out)@ + offers_chunk(*old(ctx), c@).1,
{
    proof {
        reveal_strlit("<offers>");
        reveal_strlit("<offers ");
        reveal_strlit("</offers>");
        reveal_strlit("<offer>");
        reveal_strlit("<offer ");
        reveal_strlit("</offer>");
        reveal_strlit("<price>");
        reveal_strlit("<price ");
        reveal_strlit("</price>");
        reveal_strlit("<categoryId>");
        reveal_strlit("<categoryId ");
        reveal_strlit("</categoryId>");
        reveal_strlit("offers");
        reveal_strlit("offer");
        reveal_strlit("price");
        reveal_strlit("categoryId");
        assert(seq!['<'] + "offers"@ + seq!['>'] =~= "<offers>"@);
        assert(seq!['<'] + "offers"@ + seq![' '] =~= "<offers "@);
        assert(seq!['<', '/'] + "offers"@ + seq!['>'] =~= "</offers>"@);
        assert(seq!['<'] + "offer"@ + seq!['>'] =~= "<offer>"@);
        assert(seq!['<'] + "offer"@ + seq![' '] =~= "<offer "@);
        assert(seq!['<', '/'] + "offer"@ + seq!['>'] =~= "</offer>"@);
        assert(seq!['<'] + "price"@ + seq!['>'] =~= "<price>"@);
        assert(seq!['<'] + "price"@ + seq![' '] =~= "<price "@);
        assert(seq!['<', '/'] + "price"@ + seq!['>'] =~= "</price>"@);
        assert(seq!['<'] + "categoryId"@ + seq!['>'] =~= "<categoryId>"@);
        assert(seq!['<'] + "categoryId"@ + seq![' '] =~= "<categoryId "@);
        assert(seq!['<', '/'] + "categoryId"@ + seq!['>'] =~= "</categoryId>"@);
    }
    let ghost c0 = *ctx;
    let ghost o0 = out@;
    // the `offers` list; its end asks to stop after this chunk
    if ctx.offers && ends_with(c, lit("</offers>")) {
        ctx.offers = false;
        ctx.stop = true;
    }
    if ctx.offers || starts_with(c, lit("<offers>")) || starts_with(c, lit("<offers ")) {
        ctx.offers = true;
        // an `offer` inside it
        let close = lit("</offer>");
        if ctx.offer && ends_with(c, close) {
            ctx.offer = false;
            push_all(out, close);
        }
        if ctx.offer || starts_with(c, lit("<offer>")) || starts_with(c, lit("<offer ")) {
            ctx.offer = true;
            ctx.price = flag_exec(ctx.price, c, lit("<price>"), lit("<price "), lit("</price>"));
            ctx.category_id = flag_exec(
                ctx.category_id,
                c,
                lit("<categoryId>"),
                lit("<categoryId "),
                lit("</categoryId>"),
            );
            push_all(out, c);
        }
    }
    proof {
        let (nc, no) = offers_chunk(c0, c@);
        assert(*ctx == nc);
        assert(out@ =~= o0 + no);
    }
}

proof fn lemma_offers_run_stays(cs: Seq<Seq<u8>>, j: int)
    requires
        0 <= j <= cs.len(),
        offers_run(cs.take(j)).ctx.stop || offers_run(cs.take(j)).bad_chunk,
    ensures
        offers_run(cs) == offers_run(cs.take(j)),
    decreases cs.len() - j,
{
    if j < cs.len() {
        assert(cs.take(j + 1).drop_last() =~= cs.take(j));
        lemma_offers_run_stays(cs, j + 1);
    } else {
        assert(cs.take(j) =~= cs);
    }
}

/// Filters the offers of a feed into a catalog. The file starts with the
/// opening tags of the catalog; then, chunk by chunk until the `offers`
/// list closes, comes what `offers_chunk` writes; the closing tags follow
/// when every chunk read was UTF-8.
pub fn filter_offers(doc: &[u8]) -> (r: OffersOutput)
    ensures
        ({
            let run = offers_run(chunks(doc@));
            &&& r.complete == !run.bad_chunk
            &&& r.file@ == catalog_head() + run.out + if run.bad_chunk {
                Seq::empty()
            } else {
                catalog_tail()
            }
        }),
{
    proof {
        reveal_strlit("<yml_catalog><shop><offers>");
        reveal_strlit("</offers></shop></yml_catalog>");
    }
    let mut file: Vec<u8> = Vec::new();
    push_all(&mut file, lit("<yml_catalog><shop><offers>"));
    let mut ctx = TagContext { offers: false, offer: false, price: false, category_id: false, stop: false };
    let mut pos: usize = 0;
    let ghost mut done: Seq<Seq<u8>> = Seq::empty();
    proof {
        assert(done + chunks_from(doc@, 0) =~= chunks(doc@));
        assert(catalog_head() + offers_run(done).out =~= file@);
    }
    while pos < doc.len()
        invariant
            pos <= doc.len(),
            ctx == offers_run(done).ctx,
            !ctx.stop,
            !offers_run(done).bad_chunk,
            file@ == catalog_head() + offers_run(done).out,
            done + chunks_from(doc@, pos as int) == chunks(doc@),
        decreases doc.len() - pos,
    {
        let end = next_chunk_end(doc, pos);
        let chunk = copy_range(doc, pos, end);
        proof {
            lemma_chunk_end(doc@, pos as int);
            assert(chunks_from(doc@, pos as int) == seq![doc@.subrange(pos as int, end as int)]
                + chunks_from(doc@, end as int));
        }
        let ghost d2 = done.push(chunk@);
        proof {
            assert(d2.drop_last() =~= done);
            assert(d2.last() == chunk@);
            assert(d2 + chunks_from(doc@, end as int) =~= done + chunks_from(doc@, pos as int));
        }
        let text = match decode(chunk.as_slice()) {
            Some(t) => t,
            None => {
                proof {
                    assert(offers_run(d2).bad_chunk);
                    assert(chunks(doc@).take(d2.len() as int) =~= d2);
                    lemma_offers_run_stays(chunks(doc@), d2.len() as int);
                }
                return OffersOutput { file, complete: false };
            },
        };
        let c = trim(text).as_bytes();
        let ghost f0 = file@;
        offers_chunk_exec(&mut ctx, c, &mut file);
        proof {
            assert(c@ == trimmed(chunk@));
            assert(file@ =~= catalog_head() + offers_run(d2).out);
            done = d2;
        }
        pos = end;
        if ctx.stop {
            proof {
                assert(chunks(doc@).take(done.len() as int) =~= done);
                lemma_offers_run_stays(chunks(doc@), done.len() as int);
                reveal_strlit("</offers></shop></yml_catalog>");
            }
            push_all(&mut file, lit("</offers></shop></yml_catalog>"));
            proof {
                assert(file@ =~= catalog_head() + offers_run(done).out + catalog_tail());
            }
            return OffersOutput { file, complete: true };
        }
    }
    proof {
        assert(chunks_from(doc@, doc@.len() as int) =~= Seq::<Seq<u8>>::empty());
        assert(done =~= chunks(doc@));
    }
    push_all(&mut file, lit("</offers></shop></yml_catalog>"));
    proof {
        assert(file@ =~= catalog_head() + offers_run(done).out + catalog_tail());
    }
    OffersOutput { file, complete: true }
}

// ------------------------------------------------------------------ laws

/// Once the `offers` list has closed (or a chunk was not UTF-8), the rest
/// of the feed is not read: it changes nothing in the catalog.
pub proof fn law_filter_ignores_rest(cs1: Seq<Seq<u8>>, cs2: Seq<Seq<u8>>)
    requires
        offers_run(cs1).ctx.stop || offers_run(cs1).bad_chunk,
    ensures
        offers_run(cs1 + cs2) == offers_run(cs1),
    decreases cs2.len(),
{
    if cs2.len() == 0 {
        assert(cs1 + cs2 =~= cs1);
    } else {
        law_filter_ignores_rest(cs1, cs2.drop_last());
        assert((cs1 + cs2).drop_last() =~= cs1 + cs2.drop_last());
    }
}

/// A feed in which no chunk opens the `offers` list gives a catalog with
/// no offers.
pub proof fn law_no_offers_list_no_output(cs: Seq<Seq<u8>>)
    requires
        forall|i: int| 0 <= i < cs.len() && valid_utf8(#[trigger] cs[i]) ==> !opens(trimmed(cs[i]), "offers"@),
    ensures
        offers_run(cs).out == Seq::<u8>::empty(),
        !offers_run(cs).ctx.offers,
    decreases cs.len(),
{
    if cs.len() > 0 {
        let prev = cs.drop_last();
        assert forall|i: int| 0 <= i < prev.len() && valid_utf8(#[trigger] prev[i]) implies !opens(
            trimmed(prev[i]),
            "offers"@,
        ) by {
            assert(prev[i] == cs[i]);
        }
        law_no_offers_list_no_output(prev);
        assert(cs[cs.len() - 1] == cs.last());
        let r = offers_run(prev);
        if !(r.ctx.stop || r.bad_chunk) && valid_utf8(cs.last()) {
            let (ctx, o) = offers_chunk(r.ctx, trimmed(cs.last()));
            assert(o == Seq::<u8>::empty());
            assert(r.out + o =~= Seq::<u8>::empty());
        }
    }
}

/// A chunk that closes an offer, but not the `offers` list, leaves the stop
/// flag as it was: the reading goes on to the next offer.
pub proof fn law_closing_an_offer_goes_on(ctx: TagContext, c: Seq<u8>)
    requires
        closes(c, "offer"@),
        !closes(c, "offers"@),
    ensures
        offers_chunk(ctx, c).0.stop == ctx.stop,
{
}

/// The filter stops only where the `offers` list closes: when it has
/// stopped, some chunk read was UTF-8 and, trimmed, ended with
/// `</offers>`. So every offer of the list, not only the first, reaches
/// the catalog.
pub proof fn law_filter_stops_only_at_list_end(cs: Seq<Seq<u8>>)
    ensures
        offers_run(cs).ctx.stop ==> exists|i: int|
            0 <= i < cs.len() && valid_utf8(#[trigger] cs[i]) && closes(trimmed(cs[i]), "offers"@),
    decreases cs.len(),
{
    if cs.len() > 0 {
        let prev = cs.drop_last();
        law_filter_stops_only_at_list_end(prev);
        if offers_run(prev).ctx.stop {
            let i = choose|i: int|
                0 <= i < prev.len() && valid_utf8(#[trigger] prev[i]) && closes(
                    trimmed(prev[i]),
                    "offers"@,
                );
            assert(cs[i] == prev[i]);
        }
        assert(cs[cs.len() - 1] == cs.last());
    }
}

/// While the `offers` list is open and no offer is, a UTF-8 chunk that
/// opens an offer (and does not close the list) is copied, trimmed, into
/// the catalog: a second offer is copied as the first one was.
pub proof fn law_opened_offer_is_copied(cs: Seq<Seq<u8>>, c: Seq<u8>)
    requires
        !offers_run(cs).ctx.stop,
        !offers_run(cs).bad_chunk,
        offers_run(cs).ctx.offers,
        !offers_run(cs).ctx.offer,
        valid_utf8(c),
        opens(trimmed(c), "offer"@),
        !closes(trimmed(c), "offers"@),
    ensures
        offers_run(cs.push(c)).out == offers_run(cs).out + trimmed(c),
        offers_run(cs.push(c)).ctx.offer,
        !offers_run(cs.push(c)).ctx.stop,
{
    assert(cs.push(c).drop_last() =~= cs);
    assert(Seq::<u8>::empty() + trimmed(c) =~= trimmed(c));
}

} // verus!
