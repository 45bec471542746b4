//! The scraping adapter's page extraction.
//!
//! The HTML itself is read through the `scraper` crate behind the
//! trusted wrappers at the top of this module: each one runs one
//! selection over a page or row text and hands plain strings back,
//! named by the spec functions beside it, so the page functions can
//! say exactly which extracted value each field of their result
//! carries.  What those strings mean for the shared model — id
//! encoding, the analytics-pixel filter, the image-proxy rewrite,
//! data-URI assembly — is verified below.

use vstd::prelude::*;

use base64::Engine;

use crate::mangadex::AdapterError;
use crate::mangakakalot::{encode_manga_id, spec_encode_id};
use crate::model::{Chapter, ChapterImages, ChapterNumber, Format, Manga, SearchItem};
use crate::text::{chars_of, string_from_chars};
use vstd::string::StringExecFns;

verus! {

/// The view of an optionally extracted string.
pub open spec fn opt_view(o: Option<String>) -> Option<Seq<char>> {
    match o {
        Some(s) => Some(s@),
        None => None,
    }
}

/// The outer HTML of each element of `page` matching the selector
/// group `css`, in document order, as scraper extracts it; an invalid
/// group matches nothing.  A function of the two texts alone.
pub uninterp spec fn rows_of(page: Seq<char>, css: Seq<char>) -> Seq<Seq<char>>;

/// The named attribute of the first element of the fragment matching
/// the selector group, as scraper extracts it.
pub uninterp spec fn attr_in(fragment: Seq<char>, css: Seq<char>, attr: Seq<char>) -> Option<
    Seq<char>,
>;

/// The concatenated text of the first element of the fragment matching
/// the selector group, as scraper extracts it.
pub uninterp spec fn text_in(fragment: Seq<char>, css: Seq<char>) -> Option<Seq<char>>;

/// The named attribute of every element of `page` matching the
/// selector group, in document order, `None` where an element lacks
/// it.
pub uninterp spec fn attrs_of(page: Seq<char>, css: Seq<char>, attr: Seq<char>) -> Seq<
    Option<Seq<char>>,
>;

/// Relies on scraper's `Html::parse_document`, `Selector::parse`,
/// `Html::select` and `ElementRef::html`: the outer HTML of each
/// matching element, in document order.  Parsing and selection are
/// functions of the two texts alone.
#[verifier::external_body]
fn html_rows(page: &str, css: &str) -> (r: Vec<String>)
    ensures
        crate::mangadex::model_strs(r@) == rows_of(page@, css@),
{
    let doc = scraper::Html::parse_document(page);
    match scraper::Selector::parse(css) {
        Ok(sel) => doc.select(&sel).map(|el| el.html()).collect(),
        Err(_) => Vec::new(),
    }
}

/// Relies on scraper's `Html::parse_fragment`, `Selector::parse`,
/// `Html::select` and `ElementRef::attr`: the named attribute of the
/// first matching element.  A function of the three texts alone.
#[verifier::external_body]
fn fragment_attr(fragment: &str, css: &str, attr: &str) -> (r: Option<String>)
    ensures
        opt_view(r) == attr_in(fragment@, css@, attr@),
{
    let doc = scraper::Html::parse_fragment(fragment);
    match scraper::Selector::parse(css) {
        Ok(sel) => doc.select(&sel).next().and_then(|el| el.attr(attr)).map(|s| s.to_string()),
        Err(_) => None,
    }
}

/// Relies on scraper's `Html::parse_fragment`, `Selector::parse`,
/// `Html::select` and `ElementRef::text`: the concatenated text of the
/// first matching element.  A function of the two texts alone.
#[verifier::external_body]
fn fragment_text(fragment: &str, css: &str) -> (r: Option<String>)
    ensures
        opt_view(r) == text_in(fragment@, css@),
{
    let doc = scraper::Html::parse_fragment(fragment);
    match scraper::Selector::parse(css) {
        Ok(sel) => doc.select(&sel).next().map(|el| el.text().collect()),
        Err(_) => None,
    }
}

/// Relies on scraper's `Html::parse_document`, `Selector::parse`,
/// `Html::select` and `ElementRef::attr`: the named attribute of every
/// matching element, in document order.  A function of the three texts
/// alone.
#[verifier::external_body]
fn page_attrs(page: &str, css: &str, attr: &str) -> (r: Vec<Option<String>>)
    ensures
        opt_model(r@) == attrs_of(page@, css@, attr@),
{
    let doc = scraper::Html::parse_document(page);
    match scraper::Selector::parse(css) {
        Ok(sel) => doc.select(&sel).map(|el| el.attr(attr).map(|s| s.to_string())).collect(),
        Err(_) => Vec::new(),
    }
}

/// The selector groups the site family's two template variants answer
/// to, one group per extracted piece.
pub open spec fn search_rows_css() -> Seq<char> {
    ".panel_story_list .story_item, div.list-truyen-item-wrap"@
}

pub open spec fn link_css() -> Seq<char> {
    "h3 a"@
}

pub open spec fn img_css() -> Seq<char> {
    "img"@
}

pub open spec fn main_css() -> Seq<char> {
    "div.manga-info-top, div.panel-story-info"@
}

pub open spec fn title_css() -> Seq<char> {
    "h1, h2"@
}

pub open spec fn desc_css() -> Seq<char> {
    "div#noidungm, div#panel-story-info-description"@
}

pub open spec fn cover_css() -> Seq<char> {
    "div.manga-info-pic img, span.info-image img"@
}

pub open spec fn chapter_rows_css() -> Seq<char> {
    "div.chapter-list div.row, ul.row-content-chapter li"@
}

pub open spec fn anchor_css() -> Seq<char> {
    "a"@
}

pub open spec fn reader_css() -> Seq<char> {
    "div#vungdoc img, div.container-chapter-reader img"@
}

/// What the standard base64 alphabet makes of a byte string; the result
/// depends on the bytes alone.
pub uninterp spec fn base64_of(bytes: Seq<u8>) -> Seq<char>;

/// Relies on base64's standard engine (`general_purpose::STANDARD`).
#[verifier::external_body]
fn b64_encode(bytes: &Vec<u8>) -> (r: String)
    ensures
        r@ == base64_of(bytes@),
        bytes@.len() == 0 ==> r@.len() == 0,
{
    base64::engine::general_purpose::STANDARD.encode(bytes)
}

/// Build search entries from the extracted rows: for each row the link
/// target, the link text and the cover source.  A row missing any of
/// the three is a shape failure, as the site template promises them.
pub fn search_items_from_parts(
    parts: Vec<(Option<String>, Option<String>, Option<String>)>,
) -> (r: Result<Vec<SearchItem>, AdapterError>)
    ensures
        (r is Ok) == (forall|i: int|
            0 <= i < parts@.len() ==> (#[trigger] parts@[i]).0 is Some && parts@[i].1 is Some
                && parts@[i].2 is Some),
        r matches Ok(out) ==> {
            &&& out@.len() == parts@.len()
            &&& forall|i: int|
                0 <= i < parts@.len() ==> {
                    let p = #[trigger] parts@[i];
                    let it = out@[i];
                    it.id@ == spec_encode_id(p.0->0@) && it.title@ == p.1->0@ && it.description@
                        == Seq::<char>::empty() && it.cover_url@ == p.2->0@
                }
        },
{
    let mut out: Vec<SearchItem> = Vec::new();
    let mut i: usize = 0;
    while i < parts.len()
        invariant
            i <= parts@.len(),
            out@.len() == i,
            forall|m: int|
                0 <= m < i ==> (#[trigger] parts@[m]).0 is Some && parts@[m].1 is Some
                    && parts@[m].2 is Some,
            forall|m: int|
                0 <= m < i ==> {
                    let p = #[trigger] parts@[m];
                    let it = out@[m];
                    it.id@ == spec_encode_id(p.0->0@) && it.title@ == p.1->0@ && it.description@
                        == Seq::<char>::empty() && it.cover_url@ == p.2->0@
                },
        decreases parts@.len() - i,
    {
        let p = &parts[i];
        let href = match &p.0 {
            Some(h) => h,
            None => {
                return Err(AdapterError::BadShape);
            },
        };
        let title = match &p.1 {
            Some(t) => t.clone(),
            None => {
                return Err(AdapterError::BadShape);
            },
        };
        let cover = match &p.2 {
            Some(c) => c.clone(),
            None => {
                return Err(AdapterError::BadShape);
            },
        };
        let item = SearchItem {
            id: encode_manga_id(href.as_str()),
            title,
            description: String::new(),
            cover_url: cover,
        };
        out.push(item);
        i = i + 1;
    }
    Ok(out)
}

/// Build the chapter list from the extracted rows: for each row the
/// link target and text.  The chapter number is the row's position,
/// a display-order stand-in, since the site offers no numeric label.
pub fn chapters_from_parts(rows: Vec<(Option<String>, Option<String>)>) -> (r: Result<
    Vec<Chapter>,
    AdapterError,
>)
    ensures
        (r is Ok) == (forall|i: int|
            0 <= i < rows@.len() ==> (#[trigger] rows@[i]).0 is Some && rows@[i].1 is Some),
        r matches Ok(out) ==> {
            &&& out@.len() == rows@.len()
            &&& forall|i: int|
                0 <= i < rows@.len() ==> {
                    let p = #[trigger] rows@[i];
                    let c = out@[i];
                    c.id@ == spec_encode_id(p.0->0@) && c.name@ == p.1->0@ && c.number.mantissa
                        == i && c.number.scale == 0 && c.read is None
                }
        },
{
    let mut out: Vec<Chapter> = Vec::new();
    let mut i: usize = 0;
    while i < rows.len()
        invariant
            i <= rows@.len(),
            out@.len() == i,
            forall|m: int| 0 <= m < i ==> (#[trigger] rows@[m]).0 is Some && rows@[m].1 is Some,
            forall|m: int|
                0 <= m < i ==> {
                    let p = #[trigger] rows@[m];
                    let c = out@[m];
                    c.id@ == spec_encode_id(p.0->0@) && c.name@ == p.1->0@ && c.number.mantissa
                        == m && c.number.scale == 0 && c.read is None
                },
        decreases rows@.len() - i,
    {
        let p = &rows[i];
        let href = match &p.0 {
            Some(h) => h,
            None => {
                return Err(AdapterError::BadShape);
            },
        };
        let name = match &p.1 {
            Some(t) => t.clone(),
            None => {
                return Err(AdapterError::BadShape);
            },
        };
        let c = Chapter {
            id: encode_manga_id(href.as_str()),
            name,
            number: ChapterNumber::whole(i as u64),
            read: None,
        };
        out.push(c);
        i = i + 1;
    }
    Ok(out)
}

/// Does a source end in the known non-page suffix (an analytics
/// pixel)?
pub open spec fn ends_log(s: Seq<char>) -> bool {
    s.len() >= 3 && s.subrange(s.len() - 3, s.len() as int) == "log"@
}

/// The CDN host whose images must go through the public proxy.
pub open spec fn proxied_prefix() -> Seq<char> {
    "https://convert_image_digi.mgicdn.com"@
}

pub open spec fn is_proxied(s: Seq<char>) -> bool {
    proxied_prefix().len() <= s.len() && s.take(proxied_prefix().len() as int) == proxied_prefix()
}

/// How many characters stand before the next `//`, scanning from the
/// front.
pub open spec fn before_slashes(t: Seq<char>) -> int
    decreases t.len(),
{
    if t.len() < 2 {
        t.len() as int
    } else if t[0] == '/' && t[1] == '/' {
        0
    } else {
        1 + before_slashes(t.drop_first())
    }
}

/// The request actually issued for an image source: proxied sources go
/// through the image proxy, carrying the host-and-path segment between
/// the scheme's `//` and any later `//`; everything else is fetched as
/// it stands.
pub open spec fn rewrite_of(s: Seq<char>) -> Seq<char> {
    if is_proxied(s) {
        let after = s.skip(8);
        "https://images.weserv.nl/?url="@ + after.take(before_slashes(after))
    } else {
        s
    }
}

/// The request list for a chapter's extracted image sources: a missing
/// attribute counts as an empty source, analytics pixels are dropped,
/// and each survivor is rewritten.
pub open spec fn requests_of(srcs: Seq<Option<Seq<char>>>) -> Seq<Seq<char>>
    decreases srcs.len(),
{
    if srcs.len() == 0 {
        Seq::empty()
    } else {
        let v = match srcs.last() {
            Some(x) => x,
            None => Seq::empty(),
        };
        requests_of(srcs.drop_last()) + (if ends_log(v) {
            Seq::empty()
        } else {
            seq![rewrite_of(v)]
        })
    }
}

fn ends_log_x(s: &String) -> (r: bool)
    ensures
        r == ends_log(s@),
{
    let cs = chars_of(s.as_str());
    if cs.len() < 3 {
        return false;
    }
    let n = cs.len();
    proof {
        reveal_strlit("log");
    }
    if cs[n - 3] == 'l' && cs[n - 2] == 'o' && cs[n - 1] == 'g' {
        proof {
            assert(s@.subrange(s@.len() - 3, s@.len() as int) =~= "log"@);
        }
        true
    } else {
        proof {
            if s@.subrange(s@.len() - 3, s@.len() as int) == "log"@ {
                assert(s@.subrange(s@.len() - 3, s@.len() as int)[0] == s@[s@.len() - 3]);
                assert(s@.subrange(s@.len() - 3, s@.len() as int)[1] == s@[s@.len() - 2]);
                assert(s@.subrange(s@.len() - 3, s@.len() as int)[2] == s@[s@.len() - 1]);
            }
        }
        false
    }
}

fn lit_string(lit: &str) -> (r: String)
    ensures
        r@ == lit@,
{
    let mut s = String::new();
    s.append(lit);
    s
}

fn is_proxied_x(s: &String) -> (r: bool)
    ensures
        r == is_proxied(s@),
{
    let pre = lit_string("https://convert_image_digi.mgicdn.com");
    let pcs = chars_of(pre.as_str());
    let cs = chars_of(s.as_str());
    if cs.len() < pcs.len() {
        return false;
    }
    let mut j: usize = 0;
    while j < pcs.len()
        invariant
            j <= pcs@.len() <= cs@.len(),
            pcs@ == proxied_prefix(),
            cs@ == s@,
            forall|m: int| 0 <= m < j ==> cs@[m] == pcs@[m],
        decreases pcs@.len() - j,
    {
        if cs[j] != pcs[j] {
            proof {
                if s@.take(proxied_prefix().len() as int) == proxied_prefix() {
                    assert(s@.take(proxied_prefix().len() as int)[j as int] == s@[j as int]);
                }
            }
            return false;
        }
        j = j + 1;
    }
    proof {
        assert(s@.take(proxied_prefix().len() as int) =~= proxied_prefix());
    }
    true
}

/// The one request issued for one image source.
pub fn rewrite_src(s: &String) -> (r: String)
    ensures
        r@ == rewrite_of(s@),
{
    if !is_proxied_x(s) {
        return s.clone();
    }
    let cs = chars_of(s.as_str());
    proof {
        reveal_strlit("https://convert_image_digi.mgicdn.com");
        assert(proxied_prefix().len() == 37);
        assert(s@.skip(8).skip(0) =~= s@.skip(8));
    }
    let ghost after = s@.skip(8);
    let mut k: usize = 8;
    while k < cs.len() && !(k + 1 < cs.len() && cs[k] == '/' && cs[k + 1] == '/')
        invariant
            8 <= k <= cs@.len(),
            cs@ == s@,
            cs@.len() >= 8,
            after == s@.skip(8),
            before_slashes(after) == (k - 8) + before_slashes(after.skip(k - 8)),
        decreases cs@.len() - k,
    {
        proof {
            let t = after.skip(k - 8);
            assert(t.len() == after.len() - (k - 8));
            assert(t[0] == cs@[k as int]);
            if t.len() >= 2 {
                assert(t[1] == cs@[k + 1]);
            }
            assert(t.drop_first() =~= after.skip(k - 8 + 1));
        }
        k = k + 1;
    }
    proof {
        let t = after.skip(k - 8);
        if k < cs@.len() {
            assert(t[0] == cs@[k as int]);
            if t.len() >= 2 {
                assert(t[1] == cs@[k + 1]);
            }
        }
        assert(before_slashes(t) == 0);
        assert(after.take(before_slashes(after)) =~= s@.subrange(8, k as int));
    }
    let mut seg: Vec<char> = Vec::new();
    let mut j: usize = 8;
    while j < k
        invariant
            8 <= j <= k <= cs@.len(),
            cs@ == s@,
            seg@ == s@.subrange(8, j as int),
        decreases k - j,
    {
        proof {
            assert(s@.subrange(8, j + 1).drop_last() =~= s@.subrange(8, j as int));
            assert(s@.subrange(8, j + 1).last() == s@[j as int]);
        }
        seg.push(cs[j]);
        j = j + 1;
    }
    let mut u = String::new();
    u.append("https://images.weserv.nl/?url=");
    let seg_s = string_from_chars(&seg);
    u.append(seg_s.as_str());
    u
}

/// The requests to issue for a chapter's extracted image sources.
pub fn image_requests_from(srcs: Vec<Option<String>>) -> (r: Vec<String>)
    ensures
        crate::mangadex::model_strs(r@) == requests_of(opt_model(srcs@)),
{
    proof {
        lemma_opt_model(srcs@);
    }
    let mut out: Vec<String> = Vec::new();
    let mut i: usize = 0;
    while i < srcs.len()
        invariant
            i <= srcs@.len(),
            opt_model(srcs@).len() == srcs@.len(),
            forall|m: int|
                0 <= m < srcs@.len() ==> opt_model(srcs@)[m] == (match #[trigger] srcs@[m] {
                    Some(x) => Some(x@),
                    None => None::<Seq<char>>,
                }),
            crate::mangadex::model_strs(out@) == requests_of(opt_model(srcs@).take(i as int)),
        decreases srcs@.len() - i,
    {
        let ghost om = opt_model(srcs@);
        proof {
            assert(om.take(i + 1).drop_last() =~= om.take(i as int));
            assert(om.take(i + 1).last() == om[i as int]);
        }
        let v: String = match &srcs[i] {
            Some(x) => x.clone(),
            None => String::new(),
        };
        if !ends_log_x(&v) {
            let w = rewrite_src(&v);
            proof {
                assert(out@.push(w).drop_last() =~= out@);
                assert(crate::mangadex::model_strs(out@.push(w)).drop_last()
                    =~= crate::mangadex::model_strs(out@));
                assert(crate::mangadex::model_strs(out@.push(w)) =~= crate::mangadex::model_strs(
                    out@,
                ) + seq![rewrite_of(v@)]);
            }
            out.push(w);
        } else {
            proof {
                assert(crate::mangadex::model_strs(out@) + Seq::<Seq<char>>::empty()
                    =~= crate::mangadex::model_strs(out@));
            }
        }
        i = i + 1;
    }
    proof {
        assert(opt_model(srcs@).take(opt_model(srcs@).len() as int) =~= opt_model(srcs@));
    }
    out
}

pub open spec fn opt_model(s: Seq<Option<String>>) -> Seq<Option<Seq<char>>>
    decreases s.len(),
{
    if s.len() == 0 {
        Seq::empty()
    } else {
        opt_model(s.drop_last()).push(
            match s.last() {
                Some(x) => Some(x@),
                None => None,
            },
        )
    }
}

proof fn lemma_opt_model(s: Seq<Option<String>>)
    ensures
        opt_model(s).len() == s.len(),
        forall|m: int|
            0 <= m < s.len() ==> opt_model(s)[m] == (match #[trigger] s[m] {
                Some(x) => Some(x@),
                None => None::<Seq<char>>,
            }),
    decreases s.len(),
{
    if s.len() > 0 {
        lemma_opt_model(s.drop_last());
        assert forall|m: int|
            0 <= m < s.len() implies opt_model(s)[m] == (match #[trigger] s[m] {
            Some(x) => Some(x@),
            None => None::<Seq<char>>,
        }) by {
            if m < s.len() - 1 {
                assert(s.drop_last()[m] == s[m]);
            }
        }
    }
}

/// One fetched image as a data URI.
pub open spec fn data_uri_of(content_type: Seq<char>, bytes: Seq<u8>) -> Seq<char> {
    "data:"@ + content_type + ";base64,"@ + base64_of(bytes)
}

/// Inline the fetched image bytes of a chapter, in page order.  This
/// adapter has no long-strip signal, so the format is always `Normal`.
pub fn chapter_images_from_parts(parts: Vec<(String, Vec<u8>)>) -> (r: ChapterImages)
    ensures
        r.format == Format::Normal,
        r.images@.len() == parts@.len(),
        forall|i: int|
            0 <= i < parts@.len() ==> (#[trigger] r.images@[i])@ == data_uri_of(
                parts@[i].0@,
                parts@[i].1@,
            ),
{
    let mut images: Vec<String> = Vec::new();
    let mut i: usize = 0;
    while i < parts.len()
        invariant
            i <= parts@.len(),
            images@.len() == i,
            forall|m: int|
                0 <= m < i ==> (#[trigger] images@[m])@ == data_uri_of(
                    parts@[m].0@,
                    parts@[m].1@,
                ),
        decreases parts@.len() - i,
    {
        let p = &parts[i];
        let b64 = b64_encode(&p.1);
        let mut u = String::new();
        u.append("data:");
        u.append(p.0.as_str());
        u.append(";base64,");
        u.append(b64.as_str());
        images.push(u);
        i = i + 1;
    }
    ChapterImages { images, format: Format::Normal }
}

/// Extract the search-result rows of a listing or search page: one
/// entry per element the row selector matches, its id the encoded link
/// target, its title the link text, its cover the image source, its
/// description empty (the listing has none).  A row missing link or
/// image is a shape failure; so the call succeeds exactly when every
/// row carries all three.
pub fn parse_search_page(page: &str) -> (r: Result<Vec<SearchItem>, AdapterError>)
    ensures
        (r is Ok) == (forall|i: int|
            0 <= i < rows_of(page@, search_rows_css()).len()
                ==> #[trigger] attr_in(rows_of(page@, search_rows_css())[i], link_css(), "href"@)
                is Some && text_in(rows_of(page@, search_rows_css())[i], link_css()) is Some
                && attr_in(rows_of(page@, search_rows_css())[i], img_css(), "src"@) is Some),
        r matches Ok(out) ==> {
            &&& out@.len() == rows_of(page@, search_rows_css()).len()
            &&& forall|i: int|
                0 <= i < out@.len() ==> {
                    let it = #[trigger] out@[i];
                    &&& it.id@ == spec_encode_id(
                        attr_in(rows_of(page@, search_rows_css())[i], link_css(), "href"@)->0,
                    )
                    &&& it.title@ == text_in(rows_of(page@, search_rows_css())[i], link_css())->0
                    &&& it.description@ == Seq::<char>::empty()
                    &&& it.cover_url@ == attr_in(
                        rows_of(page@, search_rows_css())[i],
                        img_css(),
                        "src"@,
                    )->0
                }
        },
{
    let rows = html_rows(page, ".panel_story_list .story_item, div.list-truyen-item-wrap");
    proof {
        crate::mangadex::lemma_model_strs_len(rows@);
    }
    let ghost rseq = rows_of(page@, search_rows_css());
    let mut parts: Vec<(Option<String>, Option<String>, Option<String>)> = Vec::new();
    let mut i: usize = 0;
    while i < rows.len()
        invariant
            i <= rows@.len(),
            rseq == rows_of(page@, search_rows_css()),
            rows@.len() == rseq.len(),
            forall|m: int| 0 <= m < rows@.len() ==> (#[trigger] rows@[m])@ == rseq[m],
            parts@.len() == i,
            forall|m: int|
                0 <= m < i ==> {
                    let p = #[trigger] parts@[m];
                    &&& opt_view(p.0) == attr_in(rseq[m], link_css(), "href"@)
                    &&& opt_view(p.1) == text_in(rseq[m], link_css())
                    &&& opt_view(p.2) == attr_in(rseq[m], img_css(), "src"@)
                },
        decreases rows@.len() - i,
    {
        let row = &rows[i];
        let href = fragment_attr(row.as_str(), "h3 a", "href");
        let title = fragment_text(row.as_str(), "h3 a");
        let cover = fragment_attr(row.as_str(), "img", "src");
        parts.push((href, title, cover));
        i = i + 1;
    }
    let ghost parts0 = parts@;
    let r = search_items_from_parts(parts);
    proof {
        assert forall|m: int|
            0 <= m < parts0.len() implies ((#[trigger] parts0[m]).0 is Some && parts0[m].1 is Some
            && parts0[m].2 is Some) == (attr_in(rseq[m], link_css(), "href"@) is Some && text_in(
            rseq[m],
            link_css(),
        ) is Some && attr_in(rseq[m], img_css(), "src"@) is Some) by {
            assert(opt_view(parts0[m].0) == attr_in(rseq[m], link_css(), "href"@));
        }
        if forall|m: int|
            0 <= m < parts0.len() ==> (#[trigger] parts0[m]).0 is Some && parts0[m].1 is Some
                && parts0[m].2 is Some {
            assert forall|i2: int|
                0 <= i2 < rseq.len() implies #[trigger] attr_in(rseq[i2], link_css(), "href"@)
                is Some && text_in(rseq[i2], link_css()) is Some && attr_in(
                rseq[i2],
                img_css(),
                "src"@,
            ) is Some by {
                assert(parts0[i2].0 is Some && parts0[i2].1 is Some && parts0[i2].2 is Some);
            }
        } else {
            let m = choose|m: int|
                0 <= m < parts0.len() && !((#[trigger] parts0[m]).0 is Some && parts0[m].1 is Some
                    && parts0[m].2 is Some);
            assert(!(attr_in(rseq[m], link_css(), "href"@) is Some && text_in(rseq[m], link_css())
                is Some && attr_in(rseq[m], img_css(), "src"@) is Some));
        }
        match &r {
            Ok(out) => {
                assert forall|i2: int| 0 <= i2 < out@.len() implies {
                    let it = #[trigger] out@[i2];
                    &&& it.id@ == spec_encode_id(attr_in(rseq[i2], link_css(), "href"@)->0)
                    &&& it.title@ == text_in(rseq[i2], link_css())->0
                    &&& it.description@ == Seq::<char>::empty()
                    &&& it.cover_url@ == attr_in(rseq[i2], img_css(), "src"@)->0
                } by {
                    assert(parts0[i2].0 is Some && parts0[i2].1 is Some && parts0[i2].2 is Some);
                    assert(opt_view(parts0[i2].0) == attr_in(rseq[i2], link_css(), "href"@));
                }
            },
            Err(_) => {},
        }
    }
    r
}

/// Extract a manga's detail page: the title, description and cover of
/// the first element the main selector matches, and one chapter per
/// row the chapter selector matches, numbered by position (the site
/// offers no numeric label).  A missing description is empty, not an
/// error; a page matching neither template, or a row without its link,
/// is a shape failure — the call succeeds exactly when the main panel,
/// its title, its cover and every chapter link are present.
pub fn parse_manga_page(page: &str, id: &str) -> (r: Result<Manga, AdapterError>)
    ensures
        (r is Ok) == ({
            &&& rows_of(page@, main_css()).len() > 0
            &&& text_in(rows_of(page@, main_css())[0], title_css()) is Some
            &&& attr_in(rows_of(page@, main_css())[0], cover_css(), "src"@) is Some
            &&& forall|i: int|
                0 <= i < rows_of(page@, chapter_rows_css()).len() ==> #[trigger] attr_in(
                    rows_of(page@, chapter_rows_css())[i],
                    anchor_css(),
                    "href"@,
                ) is Some && text_in(rows_of(page@, chapter_rows_css())[i], anchor_css()) is Some
        }),
        r matches Ok(m) ==> {
            &&& m.desc.id@ == id@
            &&& m.desc.title@ == text_in(rows_of(page@, main_css())[0], title_css())->0
            &&& m.desc.description@ == (match text_in(rows_of(page@, main_css())[0], desc_css()) {
                Some(d) => d,
                None => Seq::<char>::empty(),
            })
            &&& m.desc.cover_url@ == attr_in(rows_of(page@, main_css())[0], cover_css(), "src"@)->0
            &&& m.chapters@.len() == rows_of(page@, chapter_rows_css()).len()
            &&& forall|i: int|
                0 <= i < m.chapters@.len() ==> {
                    let c = #[trigger] m.chapters@[i];
                    &&& c.id@ == spec_encode_id(
                        attr_in(rows_of(page@, chapter_rows_css())[i], anchor_css(), "href"@)->0,
                    )
                    &&& c.name@ == text_in(rows_of(page@, chapter_rows_css())[i], anchor_css())->0
                    &&& c.number.mantissa == i
                    &&& c.number.scale == 0
                    &&& c.read is None
                }
        },
{
    let ghost mains = rows_of(page@, main_css());
    let ghost chrows = rows_of(page@, chapter_rows_css());
    let main_rows = html_rows(page, "div.manga-info-top, div.panel-story-info");
    proof {
        crate::mangadex::lemma_model_strs_len(main_rows@);
    }
    if main_rows.len() == 0 {
        return Err(AdapterError::BadShape);
    }
    let main = &main_rows[0];
    proof {
        assert(main@ == mains[0]);
    }
    let title = match fragment_text(main.as_str(), "h1, h2") {
        Some(t) => t,
        None => {
            return Err(AdapterError::BadShape);
        },
    };
    let description = match fragment_text(main.as_str(), "div#noidungm, div#panel-story-info-description") {
        Some(d) => d,
        None => String::new(),
    };
    let cover_url = match fragment_attr(main.as_str(), "div.manga-info-pic img, span.info-image img", "src") {
        Some(c) => c,
        None => {
            return Err(AdapterError::BadShape);
        },
    };
    let rows = html_rows(page, "div.chapter-list div.row, ul.row-content-chapter li");
    proof {
        crate::mangadex::lemma_model_strs_len(rows@);
    }
    let mut parts: Vec<(Option<String>, Option<String>)> = Vec::new();
    let mut i: usize = 0;
    while i < rows.len()
        invariant
            i <= rows@.len(),
            chrows == rows_of(page@, chapter_rows_css()),
            rows@.len() == chrows.len(),
            forall|m: int| 0 <= m < rows@.len() ==> (#[trigger] rows@[m])@ == chrows[m],
            parts@.len() == i,
            forall|m: int|
                0 <= m < i ==> {
                    let p = #[trigger] parts@[m];
                    &&& opt_view(p.0) == attr_in(chrows[m], anchor_css(), "href"@)
                    &&& opt_view(p.1) == text_in(chrows[m], anchor_css())
                },
        decreases rows@.len() - i,
    {
        let row = &rows[i];
        let href = fragment_attr(row.as_str(), "a", "href");
        let text = fragment_text(row.as_str(), "a");
        parts.push((href, text));
        i = i + 1;
    }
    let ghost parts0 = parts@;
    let chapters = match chapters_from_parts(parts) {
        Ok(cs) => cs,
        Err(e) => {
            proof {
                let m = choose|m: int|
                    0 <= m < parts0.len() && !((#[trigger] parts0[m]).0 is Some && parts0[m].1
                        is Some);
                assert(!(attr_in(chrows[m], anchor_css(), "href"@) is Some && text_in(
                    chrows[m],
                    anchor_css(),
                ) is Some));
            }
            return Err(e);
        },
    };
    proof {
        assert forall|i2: int|
            0 <= i2 < chrows.len() implies #[trigger] attr_in(chrows[i2], anchor_css(), "href"@)
            is Some && text_in(chrows[i2], anchor_css()) is Some by {
            assert(parts0[i2].0 is Some && parts0[i2].1 is Some);
        }
        assert forall|i2: int| 0 <= i2 < chapters@.len() implies {
            let c = #[trigger] chapters@[i2];
            &&& c.id@ == spec_encode_id(attr_in(chrows[i2], anchor_css(), "href"@)->0)
            &&& c.name@ == text_in(chrows[i2], anchor_css())->0
            &&& c.number.mantissa == i2
            &&& c.number.scale == 0
            &&& c.read is None
        } by {
            assert(parts0[i2].0 is Some && parts0[i2].1 is Some);
            assert(opt_view(parts0[i2].0) == attr_in(chrows[i2], anchor_css(), "href"@));
        }
    }
    Ok(
        Manga {
            desc: SearchItem {
                id: id.to_owned(),
                title,
                description,
                cover_url,
            },
            chapters,
        },
    )
}

/// The requests to issue for a chapter's reader page, in page order:
/// the extracted image sources with missing attributes taken as empty,
/// analytics pixels dropped, and proxied hosts rewritten through the
/// image proxy.
pub fn image_request_urls(page: &str) -> (r: Vec<String>)
    ensures
        crate::mangadex::model_strs(r@) == requests_of(attrs_of(page@, reader_css(), "src"@)),
{
    let srcs = page_attrs(page, "div#vungdoc img, div.container-chapter-reader img", "src");
    image_requests_from(srcs)
}

} // verus!
