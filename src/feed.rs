//! Syndication feeds of alerts: which dialect to read, which link an entry
//! points to, and which entries have not been seen before.

use vstd::prelude::*;
use vstd::utf8::encode_utf8;

use crate::dedup::{DedupCache, StoreError};
use crate::fence::{kept, retain_marked};
use crate::text::{lower_of, lowercase, same_text};

verus! {

/// A reference to one alert, as a feed lists it.
#[derive(Clone, Debug, PartialEq, Eq)]
pub struct Item {
    pub title: String,
    pub guid: String,
    pub link: String,
}

/// A link of a feed entry, with the media type it declares, if any.
#[derive(Clone, Debug)]
pub struct FeedLink {
    pub href: String,
    pub media_type: Option<String>,
}

/// An entry of a feed as read from either dialect, before a link is chosen.
#[derive(Clone, Debug)]
pub struct FeedEntry {
    pub title: String,
    pub guid: String,
    pub links: Vec<FeedLink>,
}

/// The media type of alert documents.
pub open spec fn alert_media_type() -> Seq<char> {
    "application/cap+xml"@
}

/// The link declares the alert media type; media types ignore case.
pub open spec fn is_alert_link(l: FeedLink) -> bool {
    l.media_type matches Some(t) && lower_of(t@) == alert_media_type()
}

/// The link an entry points to: its only link, or else its first link that
/// declares the alert media type.
pub open spec fn chosen_link(links: Seq<FeedLink>) -> Option<int> {
    if links.len() == 1 {
        Some(0)
    } else if exists|i: int| 0 <= i < links.len() && is_alert_link(#[trigger] links[i]) {
        Some(
            choose|i: int|
                0 <= i < links.len() && is_alert_link(#[trigger] links[i]) && forall|j: int|
                    0 <= j < i ==> !is_alert_link(#[trigger] links[j]),
        )
    } else {
        None
    }
}

/// Picks the link an entry points to.
pub fn choose_link(links: &Vec<FeedLink>) -> (r: Option<usize>)
    ensures
        match r {
            Some(i) => chosen_link(links@) == Some(i as int) && i < links@.len(),
            None => chosen_link(links@) is None,
        },
{
    if links.len() == 1 {
        return Some(0);
    }
    let mut i: usize = 0;
    while i < links.len()
        invariant
            links@.len() != 1,
            i <= links@.len(),
            forall|j: int| 0 <= j < i ==> !is_alert_link(#[trigger] links@[j]),
        decreases links@.len() - i,
    {
        let hit = match &links[i].media_type {
            Some(t) => {
                let l = lowercase(t.as_str());
                same_text(l.as_str(), "application/cap+xml")
            },
            None => false,
        };
        if hit {
            proof {
                let w = choose|w: int|
                    0 <= w < links@.len() && is_alert_link(#[trigger] links@[w]) && forall|j: int|
                        0 <= j < w ==> !is_alert_link(#[trigger] links@[j]);
                assert(is_alert_link(links@[i as int]));
                if w < i {
                    assert(!is_alert_link(links@[w]));
                } else if w > i {
                    assert(!is_alert_link(links@[i as int]));
                }
            }
            return Some(i);
        }
        i += 1;
    }
    None
}

/// The item an entry stands for, when it has a link to follow.
pub open spec fn item_of(e: FeedEntry) -> Option<Item> {
    match chosen_link(e.links@) {
        Some(i) => Some(Item { title: e.title, guid: e.guid, link: e.links@[i].href }),
        None => None,
    }
}

pub open spec fn items_of(es: Seq<FeedEntry>) -> Seq<Item>
    decreases es.len(),
{
    if es.len() == 0 {
        seq![]
    } else {
        let init = items_of(es.drop_last());
        match item_of(es.last()) {
            Some(it) => init.push(it),
            None => init,
        }
    }
}

/// Turns feed entries into items, dropping the entries without a link to follow.
pub fn items_from_entries(entries: &Vec<FeedEntry>) -> (r: Vec<Item>)
    ensures
        r@ == items_of(entries@),
{
    let mut out: Vec<Item> = Vec::new();
    let mut i: usize = 0;
    assert(entries@.take(0) =~= Seq::<FeedEntry>::empty());
    while i < entries.len()
        invariant
            i <= entries@.len(),
            out@ == items_of(entries@.take(i as int)),
        decreases entries@.len() - i,
    {
        let e = &entries[i];
        assert(entries@.take(i + 1).drop_last() =~= entries@.take(i as int));
        assert(entries@.take(i + 1).last() == *e);
        match choose_link(&e.links) {
            Some(k) => {
                out.push(
                    Item { title: e.title.clone(), guid: e.guid.clone(), link: e.links[k].href.clone() },
                );
            },
            None => {},
        }
        i += 1;
    }
    assert(entries@.take(entries@.len() as int) =~= entries@);
    out
}

/// The grammar a feed is written in.
#[derive(Clone, Copy, Debug, PartialEq, Eq, Structural)]
pub enum Syntax {
    Rss,
    Atom,
}

/// What a feed's media type says of its grammar.
#[derive(Clone, Copy, Debug, PartialEq, Eq, Structural)]
pub enum FeedDialect {
    Rss,
    Atom,
    /// Generic XML: read as RSS first, then as Atom.
    RssOrAtom,
}

/// A media type split into its parts.
#[derive(Clone, Debug)]
pub struct MediaType {
    pub type_: String,
    pub subtype: String,
    pub suffix: Option<String>,
}

pub open spec fn opt_view(s: Option<String>) -> Option<Seq<char>> {
    match s {
        Some(x) => Some(x@),
        None => None,
    }
}

/// Names what mime's parser makes of a media type text: its type, subtype and suffix.
pub uninterp spec fn media_type_of(s: Seq<char>) -> Option<(Seq<char>, Seq<char>, Option<Seq<char>>)>;

/// Relies on mime's `FromStr` for `Mime` and on its `type_`, `subtype` and
/// `suffix` accessors; the parts depend on the text alone.
#[verifier::external_body]
fn parse_media_type(s: &str) -> (r: Option<MediaType>)
    ensures
        match r {
            Some(m) => media_type_of(s@) == Some((m.type_@, m.subtype@, opt_view(m.suffix))),
            None => media_type_of(s@) is None,
        },
{
    match s.parse::<mime::Mime>() {
        Ok(m) => Some(MediaType {
            type_: m.type_().as_str().to_string(),
            subtype: m.subtype().as_str().to_string(),
            suffix: m.suffix().map(|x| x.as_str().to_string()),
        }),
        Err(_) => None,
    }
}

/// The dialect that media type parts select.
pub open spec fn dialect_of_parts(
    ty: Seq<char>,
    sub: Seq<char>,
    suffix: Option<Seq<char>>,
) -> Option<FeedDialect> {
    if ty != "application"@ {
        None
    } else if sub == "atom"@ && suffix == Some("xml"@) {
        Some(FeedDialect::Atom)
    } else if sub == "rss"@ && suffix == Some("xml"@) {
        Some(FeedDialect::Rss)
    } else if sub == "xml"@ && suffix is None {
        Some(FeedDialect::RssOrAtom)
    } else {
        None
    }
}

/// Why a feed could not be read.
#[derive(Clone, Copy, Debug, PartialEq, Eq, Structural)]
pub enum FeedError {
    /// The media type text does not parse.
    InvalidMediaType,
    /// The media type names no dialect this reader knows.
    UnsupportedMediaType,
}

/// The dialect that a parsed media type selects.
pub fn dialect_of(m: &MediaType) -> (r: Option<FeedDialect>)
    ensures
        r == dialect_of_parts(m.type_@, m.subtype@, opt_view(m.suffix)),
{
    if !same_text(m.type_.as_str(), "application") {
        return None;
    }
    let xml_suffix = match &m.suffix {
        Some(s) => same_text(s.as_str(), "xml"),
        None => false,
    };
    if same_text(m.subtype.as_str(), "atom") && xml_suffix {
        Some(FeedDialect::Atom)
    } else if same_text(m.subtype.as_str(), "rss") && xml_suffix {
        Some(FeedDialect::Rss)
    } else if same_text(m.subtype.as_str(), "xml") && m.suffix.is_none() {
        Some(FeedDialect::RssOrAtom)
    } else {
        None
    }
}

/// The dialect that a `Content-Type` text selects.
pub fn feed_dialect(content_type: &str) -> (r: Result<FeedDialect, FeedError>)
    ensures
        match media_type_of(content_type@) {
            None => r == Err::<FeedDialect, FeedError>(FeedError::InvalidMediaType),
            Some(p) => match dialect_of_parts(p.0, p.1, p.2) {
                Some(d) => r == Ok::<FeedDialect, FeedError>(d),
                None => r == Err::<FeedDialect, FeedError>(FeedError::UnsupportedMediaType),
            },
        },
{
    match parse_media_type(content_type) {
        None => Err(FeedError::InvalidMediaType),
        Some(m) => match dialect_of(&m) {
            Some(d) => Ok(d),
            None => Err(FeedError::UnsupportedMediaType),
        },
    }
}

/// The grammar to try after `tried` failed attempts, or `None` when there is
/// none left; the error of the last attempt is the one to report.
pub fn next_attempt(d: FeedDialect, tried: usize) -> (r: Option<Syntax>)
    ensures
        r == match d {
            FeedDialect::Rss => if tried == 0 { Some(Syntax::Rss) } else { None },
            FeedDialect::Atom => if tried == 0 { Some(Syntax::Atom) } else { None },
            FeedDialect::RssOrAtom => if tried == 0 {
                Some(Syntax::Rss)
            } else if tried == 1 {
                Some(Syntax::Atom)
            } else {
                None
            },
        },
{
    match d {
        FeedDialect::Rss => if tried == 0 { Some(Syntax::Rss) } else { None },
        FeedDialect::Atom => if tried == 0 { Some(Syntax::Atom) } else { None },
        FeedDialect::RssOrAtom => if tried == 0 {
            Some(Syntax::Rss)
        } else if tried == 1 {
            Some(Syntax::Atom)
        } else {
            None
        },
    }
}

pub open spec fn guid_key(it: Item) -> Seq<u8> {
    encode_utf8(it.guid@)
}

/// Claims the items one after another: the items that were new, and the
/// entries afterwards.
pub open spec fn claim_run(m: Map<Seq<u8>, Seq<u8>>, items: Seq<Item>) -> (Seq<Item>, Map<
    Seq<u8>,
    Seq<u8>,
>)
    decreases items.len(),
{
    if items.len() == 0 {
        (seq![], m)
    } else {
        let (new, m1) = claim_run(m, items.drop_last());
        let it = items.last();
        if m1.contains_key(guid_key(it)) {
            (new, m1)
        } else {
            (new.push(it), m1.insert(guid_key(it), encode_utf8(it.link@)))
        }
    }
}

/// Keeps the items whose guid the cache had not recorded, recording each of them.
/// When the store fails, the entries are those after claiming some prefix of
/// the items, the item at the failure included or not.
pub fn select_new(cache: &mut DedupCache, items: Vec<Item>) -> (r: Result<Vec<Item>, StoreError>)
    ensures
        r matches Ok(new) ==> (new@, final(cache).entries()) == claim_run(
            old(cache).entries(),
            items@,
        ),
        items@.len() == 0 ==> (r matches Ok(v) && v@.len() == 0 && final(cache).entries() == old(
            cache,
        ).entries()),
        r is Err ==> exists|j: int|
            0 <= j <= items@.len() && final(cache).entries() == claim_run(
                old(cache).entries(),
                #[trigger] items@.take(j),
            ).1,
{
    let ghost m0 = cache.entries();
    let mut marks: Vec<bool> = Vec::new();
    let mut i: usize = 0;
    assert(items@.take(0) =~= Seq::<Item>::empty());
    assert(kept(items@.take(0), marks@) =~= Seq::<Item>::empty());
    while i < items.len()
        invariant
            m0 == old(cache).entries(),
            i <= items@.len(),
            marks@.len() == i,
            (kept(items@.take(i as int), marks@), cache.entries()) == claim_run(m0, items@.take(i as int)),
        decreases items@.len() - i,
    {
        let ghost before = cache.entries();
        let ghost old_marks = marks@;
        let fresh = match cache.try_claim(items[i].guid.as_str(), items[i].link.as_str()) {
            Ok(b) => b,
            Err(e) => {
                proof {
                    let t = items@.take(i + 1);
                    assert(t.drop_last() =~= items@.take(i as int));
                    assert(t.last() == items@[i as int]);
                    if cache.entries() == before {
                        assert(cache.entries() == claim_run(m0, items@.take(i as int)).1);
                    } else {
                        assert(cache.entries() == claim_run(m0, items@.take(i + 1)).1);
                    }
                    assert(exists|j: int|
                        0 <= j <= items@.len() && cache.entries() == claim_run(
                            m0,
                            #[trigger] items@.take(j),
                        ).1);
                }
                return Err(e);
            },
        };
        marks.push(fresh);
        proof {
            let t = items@.take(i + 1);
            assert(t.drop_last() =~= items@.take(i as int));
            assert(t.last() == items@[i as int]);
            assert(marks@.take(i as int) =~= old_marks);
            assert(marks@[i as int] == fresh);
        }
        i += 1;
    }
    assert(items@.take(items@.len() as int) =~= items@);
    let kept_items = retain_marked(items, &marks);
    Ok(kept_items)
}

/// Claiming the same items a second time finds none new and leaves the
/// entries as they were.
pub proof fn lemma_claim_run_again(m: Map<Seq<u8>, Seq<u8>>, items: Seq<Item>)
    ensures
        claim_run(claim_run(m, items).1, items).0.len() == 0,
        claim_run(claim_run(m, items).1, items).1 == claim_run(m, items).1,
{
    let m1 = claim_run(m, items).1;
    lemma_claim_run_records(m, items);
    lemma_claim_run_recorded(m1, items);
}

/// After a run every item's guid is recorded, and no entry is lost.
proof fn lemma_claim_run_records(m: Map<Seq<u8>, Seq<u8>>, items: Seq<Item>)
    ensures
        forall|i: int| 0 <= i < items.len() ==> claim_run(m, items).1.contains_key(
            #[trigger] guid_key(items[i]),
        ),
        forall|k: Seq<u8>| m.contains_key(k) ==> #[trigger] claim_run(m, items).1.contains_key(k),
    decreases items.len(),
{
    if items.len() > 0 {
        let init = items.drop_last();
        lemma_claim_run_records(m, init);
        let m1 = claim_run(m, init).1;
        let m2 = claim_run(m, items).1;
        assert(m2 == m1 || m2 == m1.insert(guid_key(items.last()), encode_utf8(items.last().link@)));
        assert(m2.contains_key(guid_key(items.last())));
        assert forall|k: Seq<u8>| m.contains_key(k) implies #[trigger] m2.contains_key(k) by {
            assert(m1.contains_key(k));
        }
        assert forall|i: int| 0 <= i < items.len() implies claim_run(m, items).1.contains_key(
            #[trigger] guid_key(items[i]),
        ) by {
            if i < init.len() {
                assert(init[i] == items[i]);
                assert(claim_run(m, init).1.contains_key(guid_key(init[i])));
            }
        }
    }
}

/// A run over items whose guids are all recorded keeps nothing and changes nothing.
proof fn lemma_claim_run_recorded(m: Map<Seq<u8>, Seq<u8>>, items: Seq<Item>)
    requires
        forall|i: int| 0 <= i < items.len() ==> m.contains_key(#[trigger] guid_key(items[i])),
    ensures
        claim_run(m, items).0.len() == 0,
        claim_run(m, items).1 == m,
    decreases items.len(),
{
    if items.len() > 0 {
        let init = items.drop_last();
        assert forall|i: int| 0 <= i < init.len() implies m.contains_key(#[trigger] guid_key(init[i])) by {
            assert(init[i] == items[i]);
        }
        lemma_claim_run_recorded(m, init);
        assert(m.contains_key(guid_key(items[items.len() - 1])));
    }
}

} // verus!
