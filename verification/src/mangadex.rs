//! The REST adapter (MangaDex-style API): URL construction and the
//! translation of its typed JSON responses into the shared model.
//!
//! Every extraction is specified against the parsed document: which
//! fields must be present, in what shape, and exactly what the result
//! is.  Missing relational data that the model cannot do without (the
//! parent-manga tags of a chapter) is a hard failure; a missing cover
//! relationship only yields an empty file name, as the upstream does.

use vstd::prelude::*;

use crate::json::{
    dec_val, digits_len, digits_run, is_digit, is_digit_seq, jv_members, jv_seq, lemma_jv_members,
    lemma_jv_seq, parse_json, spec_json, Json, JsonV,
};
use crate::model::{Chapter, ChapterImages, ChapterNumber, Format, Manga, SearchItem};
use crate::prefs_codec::lemma_dec_val_mono;
use crate::text::{char_code, chars_of};
use vstd::string::StringExecFns;

verus! {

/// Why a response could not be used.
#[derive(Clone, Copy, PartialEq, Eq, Structural, Debug)]
pub enum AdapterError {
    /// The body is not a JSON document.
    BadJson,
    /// The document does not have the shape the API promises.
    BadShape,
}

/// The first member of `ms` named `k`, if any.
pub open spec fn jv_get(ms: Seq<(Seq<char>, JsonV)>, k: Seq<char>) -> Option<JsonV>
    decreases ms.len(),
{
    if ms.len() == 0 {
        None
    } else if ms[0].0 == k {
        Some(ms[0].1)
    } else {
        jv_get(ms.drop_first(), k)
    }
}

fn lit_string(lit: &str) -> (r: String)
    ensures
        r@ == lit@,
{
    let mut s = String::new();
    s.append(lit);
    s
}

fn str_is(s: &String, lit: &str) -> (r: bool)
    ensures
        r == (s@ == lit@),
{
    let t = lit_string(lit);
    *s == t
}

/// Look a key up in an object's members, first match wins.
fn obj_get<'a>(ms: &'a Vec<(String, Json)>, key: &str) -> (r: Option<&'a Json>)
    ensures
        match r {
            Some(j) => jv_get(jv_members(ms@), key@) == Some(j.jv()),
            None => jv_get(jv_members(ms@), key@) is None,
        },
{
    proof {
        lemma_jv_members(ms@);
    }
    let ghost full = jv_members(ms@);
    proof {
        assert(full.skip(0) =~= full);
    }
    let mut i: usize = 0;
    while i < ms.len()
        invariant
            i <= ms@.len(),
            full == jv_members(ms@),
            full.len() == ms@.len(),
            forall|m: int| 0 <= m < ms@.len() ==> full[m] == ((#[trigger] ms@[m]).0@, ms@[m].1.jv()),
            jv_get(full, key@) == jv_get(full.skip(i as int), key@),
        decreases ms@.len() - i,
    {
        proof {
            assert(full.skip(i as int)[0] == full[i as int]);
            assert(full.skip(i as int).drop_first() =~= full.skip(i + 1));
        }
        if str_is(&ms[i].0, key) {
            return Some(&ms[i].1);
        }
        i = i + 1;
    }
    proof {
        assert(full.skip(full.len() as int).len() == 0);
    }
    None
}

/// The localized-string fallback, one fixed priority order for titles
/// and descriptions alike: the primary locale, then the secondary one,
/// then the empty string; a present but non-string entry is a shape
/// failure.
pub open spec fn localized_of(m: Seq<(Seq<char>, JsonV)>) -> Option<Seq<char>> {
    match jv_get(m, "en"@) {
        Some(JsonV::Str(s)) => Some(s),
        Some(_) => None,
        None => match jv_get(m, "jp"@) {
            Some(JsonV::Str(s)) => Some(s),
            Some(_) => None,
            None => Some(Seq::empty()),
        },
    }
}

fn resolve_localized(m: &Vec<(String, Json)>) -> (r: Option<String>)
    ensures
        match r {
            Some(s) => localized_of(jv_members(m@)) == Some(s@),
            None => localized_of(jv_members(m@)) is None,
        },
{
    match obj_get(m, "en") {
        Some(j) => match j {
            Json::Str(s) => Some(s.clone()),
            _ => None,
        },
        None => match obj_get(m, "jp") {
            Some(j) => match j {
                Json::Str(s) => Some(s.clone()),
                _ => None,
            },
            None => Some(String::new()),
        },
    }
}

/// Is this relationship entry the cover-art one?
pub open spec fn is_cover_rel(v: JsonV) -> bool {
    match v {
        JsonV::Obj(ms) => jv_get(ms, "type"@) == Some(JsonV::Str("cover_art"@)),
        _ => false,
    }
}

/// The first cover-art relationship.
pub open spec fn first_cover(rels: Seq<JsonV>) -> Option<JsonV>
    decreases rels.len(),
{
    if rels.len() == 0 {
        None
    } else if is_cover_rel(rels[0]) {
        Some(rels[0])
    } else {
        first_cover(rels.drop_first())
    }
}

/// The file name inside a cover-art relationship; absence of the
/// attributes or the name is a shape failure.
pub open spec fn cover_file_of(rel: JsonV) -> Option<Seq<char>> {
    match rel {
        JsonV::Obj(ms) => match jv_get(ms, "attributes"@) {
            Some(JsonV::Obj(am)) => match jv_get(am, "fileName"@) {
                Some(JsonV::Str(f)) => Some(f),
                _ => None,
            },
            _ => None,
        },
        _ => None,
    }
}

/// The cover file name of a manga entry: empty when no cover-art
/// relationship is present at all.
pub open spec fn cover_name(rels: Seq<JsonV>) -> Option<Seq<char>> {
    match first_cover(rels) {
        None => Some(Seq::empty()),
        Some(rel) => cover_file_of(rel),
    }
}

fn is_cover_rel_x(j: &Json) -> (r: bool)
    ensures
        r == is_cover_rel(j.jv()),
{
    match j {
        Json::Obj(ms) => {
            proof {
                lemma_jv_members(ms@);
            }
            match obj_get(ms, "type") {
                Some(t) => match t {
                    Json::Str(s) => str_is(s, "cover_art"),
                    _ => false,
                },
                None => false,
            }
        },
        _ => false,
    }
}

fn cover_file_from(rel: &Json) -> (r: Option<String>)
    ensures
        match r {
            Some(f) => cover_file_of(rel.jv()) == Some(f@),
            None => cover_file_of(rel.jv()) is None,
        },
{
    match rel {
        Json::Obj(ms) => match obj_get(ms, "attributes") {
            Some(a) => match a {
                Json::Obj(am) => match obj_get(am, "fileName") {
                    Some(f) => match f {
                        Json::Str(s) => Some(s.clone()),
                        _ => None,
                    },
                    _ => None,
                },
                _ => None,
            },
            _ => None,
        },
        _ => None,
    }
}

fn cover_name_from(rels: &Vec<Json>) -> (r: Option<String>)
    ensures
        match r {
            Some(f) => cover_name(jv_seq(rels@)) == Some(f@),
            None => cover_name(jv_seq(rels@)) is None,
        },
{
    proof {
        lemma_jv_seq(rels@);
    }
    let ghost full = jv_seq(rels@);
    proof {
        assert(full.skip(0) =~= full);
    }
    let mut i: usize = 0;
    while i < rels.len()
        invariant
            i <= rels@.len(),
            full == jv_seq(rels@),
            full.len() == rels@.len(),
            forall|m: int| 0 <= m < rels@.len() ==> full[m] == (#[trigger] rels@[m]).jv(),
            first_cover(full) == first_cover(full.skip(i as int)),
        decreases rels@.len() - i,
    {
        proof {
            assert(full.skip(i as int)[0] == full[i as int]);
            assert(full.skip(i as int).drop_first() =~= full.skip(i + 1));
        }
        if is_cover_rel_x(&rels[i]) {
            return cover_file_from(&rels[i]);
        }
        i = i + 1;
    }
    proof {
        assert(full.skip(full.len() as int).len() == 0);
    }
    Some(String::new())
}

/// The synthesized cover URL.
pub open spec fn cover_url_of(id: Seq<char>, file: Seq<char>) -> Seq<char> {
    "https://uploads.mangadex.org/covers/"@ + id + "/"@ + file + ".256.jpg"@
}

/// One search entry of the shared model, as plain values:
/// `(id, title, description, cover_url)`.
pub open spec fn search_item_of(v: JsonV) -> Option<(Seq<char>, Seq<char>, Seq<char>, Seq<char>)> {
    match v {
        JsonV::Obj(ms) => match (jv_get(ms, "id"@), jv_get(ms, "attributes"@), jv_get(
            ms,
            "relationships"@,
        )) {
            (Some(JsonV::Str(id)), Some(JsonV::Obj(am)), Some(JsonV::Arr(rels))) => match (jv_get(
                am,
                "title"@,
            ), jv_get(am, "description"@)) {
                (Some(JsonV::Obj(tm)), Some(JsonV::Obj(dm))) => match (localized_of(tm),
                localized_of(dm), cover_name(rels)) {
                    (Some(t), Some(d), Some(f)) => Some((id, t, d, cover_url_of(id, f))),
                    _ => None,
                },
                _ => None,
            },
            _ => None,
        },
        _ => None,
    }
}

/// Translate one manga entry.
pub fn search_item_from(v: &Json) -> (r: Option<SearchItem>)
    ensures
        match r {
            Some(si) => search_item_of(v.jv()) == Some((si.id@, si.title@, si.description@, si.cover_url@)),
            None => search_item_of(v.jv()) is None,
        },
{
    match v {
        Json::Obj(ms) => {
            let id = match obj_get(ms, "id") {
                Some(j) => match j {
                    Json::Str(s) => s.clone(),
                    _ => {
                        return None;
                    },
                },
                None => {
                    return None;
                },
            };
            let am = match obj_get(ms, "attributes") {
                Some(j) => match j {
                    Json::Obj(am) => am,
                    _ => {
                        return None;
                    },
                },
                None => {
                    return None;
                },
            };
            let rels = match obj_get(ms, "relationships") {
                Some(j) => match j {
                    Json::Arr(a) => a,
                    _ => {
                        return None;
                    },
                },
                None => {
                    return None;
                },
            };
            let title = match obj_get(am, "title") {
                Some(j) => match j {
                    Json::Obj(tm) => match resolve_localized(tm) {
                        Some(t) => t,
                        None => {
                            return None;
                        },
                    },
                    _ => {
                        return None;
                    },
                },
                None => {
                    return None;
                },
            };
            let desc = match obj_get(am, "description") {
                Some(j) => match j {
                    Json::Obj(dm) => match resolve_localized(dm) {
                        Some(d) => d,
                        None => {
                            return None;
                        },
                    },
                    _ => {
                        return None;
                    },
                },
                None => {
                    return None;
                },
            };
            let file = match cover_name_from(rels) {
                Some(f) => f,
                None => {
                    return None;
                },
            };
            let mut url = String::new();
            url.append("https://uploads.mangadex.org/covers/");
            url.append(id.as_str());
            url.append("/");
            url.append(file.as_str());
            url.append(".256.jpg");
            Some(SearchItem { id, title, description: desc, cover_url: url })
        },
        _ => None,
    }
}

/// An optional string field: absent or `null` is `None`, a string is
/// itself, anything else is a shape failure.
pub open spec fn opt_str(ms: Seq<(Seq<char>, JsonV)>, k: Seq<char>) -> Option<Option<Seq<char>>> {
    match jv_get(ms, k) {
        None => Some(None),
        Some(JsonV::Null) => Some(None),
        Some(JsonV::Str(s)) => Some(Some(s)),
        Some(_) => None,
    }
}

fn opt_str_from(ms: &Vec<(String, Json)>, key: &str) -> (r: Option<Option<String>>)
    ensures
        match r {
            Some(Some(s)) => opt_str(jv_members(ms@), key@) == Some(Some(s@)),
            Some(None) => opt_str(jv_members(ms@), key@) == Some(None::<Seq<char>>),
            None => opt_str(jv_members(ms@), key@) is None,
        },
{
    match obj_get(ms, key) {
        None => Some(None),
        Some(j) => match j {
            Json::Null => Some(None),
            Json::Str(s) => Some(Some(s.clone())),
            _ => None,
        },
    }
}

/// The display label of a chapter: `"Vol.{v} "` then `"Chap.{c}"`, each
/// segment omitted when its field is absent.
pub open spec fn chapter_name_of(vol: Option<Seq<char>>, chap: Option<Seq<char>>) -> Seq<char> {
    (match vol {
        Some(v) => "Vol."@ + v + " "@,
        None => Seq::empty(),
    }) + (match chap {
        Some(c) => "Chap."@ + c,
        None => Seq::empty(),
    })
}

fn build_chapter_name(vol: &Option<String>, chap: &Option<String>) -> (r: String)
    ensures
        r@ == chapter_name_of(
            match vol {
                Some(v) => Some(v@),
                None => None,
            },
            match chap {
                Some(c) => Some(c@),
                None => None,
            },
        ),
{
    let mut name = String::new();
    match vol {
        Some(v) => {
            name.append("Vol.");
            name.append(v.as_str());
            name.append(" ");
        },
        None => {},
    }
    match chap {
        Some(c) => {
            name.append("Chap.");
            name.append(c.as_str());
        },
        None => {},
    }
    name
}

/// With both labels present the display name is exactly
/// `Vol.{v} Chap.{c}`; with only the chapter label it is `Chap.{c}`,
/// with no leading space.
pub proof fn lemma_chapter_name_shape(v: Seq<char>, c: Seq<char>)
    ensures
        chapter_name_of(Some(v), Some(c)) == "Vol."@ + v + " "@ + "Chap."@ + c,
        chapter_name_of(None, Some(c)) == "Chap."@ + c,
        chapter_name_of(None, Some(c))[0] == 'C',
{
    assert(chapter_name_of(Some(v), Some(c)) =~= "Vol."@ + v + " "@ + "Chap."@ + c);
    assert(chapter_name_of(None, Some(c)) =~= "Chap."@ + c);
    reveal_strlit("Chap.");
    assert(("Chap."@ + c)[0] == 'C');
}

/// The localized fallback order, for titles and descriptions alike: an
/// entry under the primary locale wins; without one, the secondary
/// locale's entry is used; with neither, the string is empty.
pub proof fn lemma_localized_fallback(m: Seq<(Seq<char>, JsonV)>, s: Seq<char>)
    ensures
        jv_get(m, "en"@) == Some(JsonV::Str(s)) ==> localized_of(m) == Some(s),
        jv_get(m, "en"@) is None && jv_get(m, "jp"@) == Some(JsonV::Str(s)) ==> localized_of(m)
            == Some(s),
        jv_get(m, "en"@) is None && jv_get(m, "jp"@) is None ==> localized_of(m) == Some(
            Seq::<char>::empty(),
        ),
{
}

/// A chapter label split into whole and fractional digits, when it is a
/// plain decimal number.
pub open spec fn decimal_parts(s: Seq<char>) -> Option<(Seq<char>, Seq<char>)> {
    let k = digits_len(s);
    if k == 0 {
        None
    } else if k == s.len() {
        Some((s, Seq::empty()))
    } else if s[k] == '.' {
        let frac = s.skip(k + 1);
        if frac.len() > 0 && digits_len(frac) == frac.len() {
            Some((s.take(k), frac))
        } else {
            None
        }
    } else {
        None
    }
}

/// The numeric value of a chapter label: `(mantissa, scale)` with the
/// value `mantissa / 10^scale`; absent or non-numeric labels, and
/// numbers too large to hold, default to zero.
pub open spec fn number_of(chap: Option<Seq<char>>) -> (int, int) {
    match chap {
        None => (0, 0),
        Some(s) => match decimal_parts(s) {
            None => (0, 0),
            Some((w, f)) => if dec_val(w + f) <= u64::MAX && f.len() <= u32::MAX {
                (dec_val(w + f), f.len() as int)
            } else {
                (0, 0)
            },
        },
    }
}

/// Digits of `s` with the one dot dropped, when `s` is a decimal label.
fn parse_chapter_number(chap: &Option<String>) -> (r: ChapterNumber)
    ensures
        (r.mantissa as int, r.scale as int) == number_of(
            match chap {
                Some(c) => Some(c@),
                None => None,
            },
        ),
{
    let s = match chap {
        Some(c) => c,
        None => {
            return ChapterNumber::zero();
        },
    };
    let cs = chars_of(s.as_str());
    proof {
        assert(cs@.skip(0) =~= cs@);
    }
    let k = digits_run(&cs, 0);
    if k == 0 {
        return ChapterNumber::zero();
    }
    let mut digits: Vec<char> = Vec::new();
    let mut scale: usize = 0;
    if k == cs.len() {
        let mut j: usize = 0;
        while j < k
            invariant
                j <= k <= cs@.len(),
                digits@ == cs@.take(j as int),
            decreases k - j,
        {
            proof {
                assert(cs@.take(j + 1).drop_last() =~= cs@.take(j as int));
                assert(cs@.take(j + 1).last() == cs@[j as int]);
            }
            digits.push(cs[j]);
            j = j + 1;
        }
        proof {
            assert(cs@.take(cs@.len() as int) =~= cs@);
            assert(digits@ =~= cs@ + Seq::<char>::empty());
        }
    } else if cs[k] == '.' {
        proof {
            assert(cs@.skip(k + 1).len() == cs@.len() - k - 1);
        }
        let f = digits_run(&cs, k + 1);
        if f == 0 || k + 1 + f != cs.len() {
            proof {
                let frac = s@.skip(k + 1);
                assert(frac.len() == s@.len() - k - 1);
                assert(digits_len(frac) == f as int);
                assert(!(frac.len() > 0 && digits_len(frac) == frac.len()));
                assert(decimal_parts(s@) is None);
            }
            return ChapterNumber::zero();
        }
        scale = f;
        let mut j: usize = 0;
        while j < k
            invariant
                j <= k <= cs@.len(),
                digits@ == cs@.take(j as int),
            decreases k - j,
        {
            proof {
                assert(cs@.take(j + 1).drop_last() =~= cs@.take(j as int));
                assert(cs@.take(j + 1).last() == cs@[j as int]);
            }
            digits.push(cs[j]);
            j = j + 1;
        }
        let mut j: usize = k + 1;
        while j < cs.len()
            invariant
                k + 1 <= j <= cs@.len(),
                digits@ == cs@.take(k as int) + cs@.subrange(k + 1, j as int),
            decreases cs@.len() - j,
        {
            proof {
                assert(cs@.subrange(k + 1, j + 1).drop_last() =~= cs@.subrange(k + 1, j as int));
                assert(cs@.subrange(k + 1, j + 1).last() == cs@[j as int]);
                assert((cs@.take(k as int) + cs@.subrange(k + 1, j + 1)) =~= (cs@.take(k as int)
                    + cs@.subrange(k + 1, j as int)).push(cs@[j as int]));
            }
            digits.push(cs[j]);
            j = j + 1;
        }
        proof {
            assert(cs@.subrange(k + 1, cs@.len() as int) =~= cs@.skip(k + 1));
        }
    } else {
        return ChapterNumber::zero();
    }
    // digits now holds the whole and fractional digits, in order
    proof {
        let parts = decimal_parts(s@)->0;
        assert(digits@ =~= parts.0 + parts.1);
        assert(is_digit_seq(digits@)) by {
            if k == cs@.len() {
                assert(forall|m: int| 0 <= m < k ==> is_digit(#[trigger] cs@[m])) by {
                    lemma_digits_run_digits(cs@, 0, k as int);
                }
            } else {
                lemma_digits_run_digits(cs@, 0, k as int);
                lemma_digits_run_digits(cs@, k + 1, cs@.len() as int);
            }
        }
    }
    if scale > 0xFFFF_FFFF {
        return ChapterNumber::zero();
    }
    match parse_u64_digits(&digits) {
        None => ChapterNumber::zero(),
        Some(m) => ChapterNumber { mantissa: m, scale: scale as u32 },
    }
}

/// Read an unsigned decimal; `None` when it does not fit in a `u64`.
fn parse_u64_digits(digits: &Vec<char>) -> (r: Option<u64>)
    requires
        is_digit_seq(digits@),
    ensures
        match r {
            Some(n) => dec_val(digits@) == n as int,
            None => dec_val(digits@) > u64::MAX,
        },
{
    let mut acc: u64 = 0;
    let mut j: usize = 0;
    while j < digits.len()
        invariant
            j <= digits@.len(),
            is_digit_seq(digits@),
            acc as int == dec_val(digits@.take(j as int)),
            acc <= u64::MAX,
        decreases digits@.len() - j,
    {
        let c = digits[j];
        proof {
            assert(digits@.take(j + 1).drop_last() =~= digits@.take(j as int));
            assert(digits@.take(j + 1).last() == digits@[j as int]);
        }
        let d = char_code(c) - char_code('0');
        if acc > (u64::MAX - (d as u64)) / 10 {
            proof {
                let a = acc as int;
                let dd = d as int;
                let m = u64::MAX as int;
                assert(a * 10 + dd > m) by (nonlinear_arith)
                    requires
                        a > (m - dd) / 10,
                        0 <= dd <= 9,
                        0 <= a,
                        m == 0xFFFF_FFFF_FFFF_FFFF,
                {
                }
                assert(dec_val(digits@.take(j + 1)) > u64::MAX);
                lemma_dec_val_mono(digits@, j + 1);
            }
            return None;
        }
        acc = acc * 10 + (d as u64);
        j = j + 1;
    }
    proof {
        assert(digits@.take(digits@.len() as int) =~= digits@);
    }
    Some(acc)
}

/// One chapter entry as plain values: `(id, name, number)`.
pub open spec fn chapter_of(v: JsonV) -> Option<(Seq<char>, Seq<char>, (int, int))> {
    match v {
        JsonV::Obj(ms) => match (jv_get(ms, "id"@), jv_get(ms, "attributes"@)) {
            (Some(JsonV::Str(id)), Some(JsonV::Obj(am))) => match (opt_str(am, "volume"@), opt_str(
                am,
                "chapter"@,
            )) {
                (Some(vol), Some(ch)) => Some((id, chapter_name_of(vol, ch), number_of(ch))),
                _ => None,
            },
            _ => None,
        },
        _ => None,
    }
}

/// Translate one chapter entry; the read flag is left unset.
pub fn chapter_from(v: &Json) -> (r: Option<Chapter>)
    ensures
        match r {
            Some(c) => chapter_of(v.jv()) == Some(
                (c.id@, c.name@, (c.number.mantissa as int, c.number.scale as int)),
            ) && c.read is None,
            None => chapter_of(v.jv()) is None,
        },
{
    match v {
        Json::Obj(ms) => {
            let id = match obj_get(ms, "id") {
                Some(j) => match j {
                    Json::Str(s) => s.clone(),
                    _ => {
                        return None;
                    },
                },
                None => {
                    return None;
                },
            };
            let am = match obj_get(ms, "attributes") {
                Some(j) => match j {
                    Json::Obj(am) => am,
                    _ => {
                        return None;
                    },
                },
                None => {
                    return None;
                },
            };
            let vol = match opt_str_from(am, "volume") {
                Some(v2) => v2,
                None => {
                    return None;
                },
            };
            let ch = match opt_str_from(am, "chapter") {
                Some(c2) => c2,
                None => {
                    return None;
                },
            };
            let name = build_chapter_name(&vol, &ch);
            let number = parse_chapter_number(&ch);
            Some(Chapter { id, name, number, read: None })
        },
        _ => None,
    }
}

pub open spec fn chapters_of(items: Seq<JsonV>) -> Option<Seq<(Seq<char>, Seq<char>, (int, int))>>
    decreases items.len(),
{
    if items.len() == 0 {
        Some(Seq::empty())
    } else {
        match chapters_of(items.drop_last()) {
            Some(pre) => match chapter_of(items.last()) {
                Some(c) => Some(pre.push(c)),
                None => None,
            },
            None => None,
        }
    }
}

pub open spec fn model_chapters(s: Seq<Chapter>) -> Seq<(Seq<char>, Seq<char>, (int, int))>
    decreases s.len(),
{
    if s.len() == 0 {
        Seq::empty()
    } else {
        model_chapters(s.drop_last()).push(
            (s.last().id@, s.last().name@, (s.last().number.mantissa as int,
            s.last().number.scale as int)),
        )
    }
}

proof fn lemma_chapters_none(s: Seq<JsonV>, k: int)
    requires
        0 <= k <= s.len(),
        chapters_of(s.take(k)) is None,
    ensures
        chapters_of(s) is None,
    decreases s.len() - k,
{
    if k < s.len() {
        assert(s.take(k + 1).drop_last() =~= s.take(k));
        lemma_chapters_none(s, k + 1);
    } else {
        assert(s.take(s.len() as int) =~= s);
    }
}

fn chapters_from(items: &Vec<Json>) -> (r: Option<Vec<Chapter>>)
    ensures
        match r {
            Some(out) => chapters_of(jv_seq(items@)) == Some(model_chapters(out@)) && (forall|
                i: int,
            |
                0 <= i < out@.len() ==> (#[trigger] out@[i]).read is None),
            None => chapters_of(jv_seq(items@)) is None,
        },
{
    proof {
        lemma_jv_seq(items@);
    }
    let mut out: Vec<Chapter> = Vec::new();
    let mut i: usize = 0;
    while i < items.len()
        invariant
            i <= items@.len(),
            jv_seq(items@).len() == items@.len(),
            forall|m: int| 0 <= m < items@.len() ==> jv_seq(items@)[m] == (#[trigger] items@[m]).jv(),
            chapters_of(jv_seq(items@).take(i as int)) == Some(model_chapters(out@)),
            forall|m: int| 0 <= m < out@.len() ==> (#[trigger] out@[m]).read is None,
        decreases items@.len() - i,
    {
        proof {
            assert(jv_seq(items@).take(i + 1).drop_last() =~= jv_seq(items@).take(i as int));
            assert(jv_seq(items@).take(i + 1).last() == jv_seq(items@)[i as int]);
        }
        match chapter_from(&items[i]) {
            None => {
                proof {
                    assert(chapters_of(jv_seq(items@).take(i + 1)) is None);
                    lemma_chapters_none(jv_seq(items@), i + 1);
                }
                return None;
            },
            Some(c) => {
                proof {
                    assert(out@.push(c).drop_last() =~= out@);
                    assert(model_chapters(out@.push(c)).drop_last() =~= model_chapters(out@));
                }
                out.push(c);
            },
        }
        i = i + 1;
    }
    proof {
        assert(jv_seq(items@).take(jv_seq(items@).len() as int) =~= jv_seq(items@));
    }
    Some(out)
}

pub open spec fn items_of(s: Seq<JsonV>) -> Option<Seq<(Seq<char>, Seq<char>, Seq<char>, Seq<char>)>>
    decreases s.len(),
{
    if s.len() == 0 {
        Some(Seq::empty())
    } else {
        match items_of(s.drop_last()) {
            Some(pre) => match search_item_of(s.last()) {
                Some(it) => Some(pre.push(it)),
                None => None,
            },
            None => None,
        }
    }
}

pub open spec fn model_items(s: Seq<SearchItem>) -> Seq<(Seq<char>, Seq<char>, Seq<char>, Seq<char>)>
    decreases s.len(),
{
    if s.len() == 0 {
        Seq::empty()
    } else {
        model_items(s.drop_last()).push(
            (s.last().id@, s.last().title@, s.last().description@, s.last().cover_url@),
        )
    }
}

proof fn lemma_items_none(s: Seq<JsonV>, k: int)
    requires
        0 <= k <= s.len(),
        items_of(s.take(k)) is None,
    ensures
        items_of(s) is None,
    decreases s.len() - k,
{
    if k < s.len() {
        assert(s.take(k + 1).drop_last() =~= s.take(k));
        lemma_items_none(s, k + 1);
    } else {
        assert(s.take(s.len() as int) =~= s);
    }
}

fn items_from(items: &Vec<Json>) -> (r: Option<Vec<SearchItem>>)
    ensures
        match r {
            Some(out) => items_of(jv_seq(items@)) == Some(model_items(out@)),
            None => items_of(jv_seq(items@)) is None,
        },
{
    proof {
        lemma_jv_seq(items@);
    }
    let mut out: Vec<SearchItem> = Vec::new();
    let mut i: usize = 0;
    while i < items.len()
        invariant
            i <= items@.len(),
            jv_seq(items@).len() == items@.len(),
            forall|m: int| 0 <= m < items@.len() ==> jv_seq(items@)[m] == (#[trigger] items@[m]).jv(),
            items_of(jv_seq(items@).take(i as int)) == Some(model_items(out@)),
        decreases items@.len() - i,
    {
        proof {
            assert(jv_seq(items@).take(i + 1).drop_last() =~= jv_seq(items@).take(i as int));
            assert(jv_seq(items@).take(i + 1).last() == jv_seq(items@)[i as int]);
        }
        match search_item_from(&items[i]) {
            None => {
                proof {
                    assert(items_of(jv_seq(items@).take(i + 1)) is None);
                    lemma_items_none(jv_seq(items@), i + 1);
                }
                return None;
            },
            Some(it) => {
                proof {
                    assert(out@.push(it).drop_last() =~= out@);
                    assert(model_items(out@.push(it)).drop_last() =~= model_items(out@));
                }
                out.push(it);
            },
        }
        i = i + 1;
    }
    proof {
        assert(jv_seq(items@).take(jv_seq(items@).len() as int) =~= jv_seq(items@));
    }
    Some(out)
}

/// The `data` envelope every response wraps its payload in.
pub open spec fn data_of(doc: JsonV) -> Option<JsonV> {
    match doc {
        JsonV::Obj(ms) => jv_get(ms, "data"@),
        _ => None,
    }
}

/// Is this relationship entry the parent-manga one?
pub open spec fn is_manga_rel(v: JsonV) -> bool {
    match v {
        JsonV::Obj(ms) => jv_get(ms, "type"@) == Some(JsonV::Str("manga"@)),
        _ => false,
    }
}

pub open spec fn first_manga(rels: Seq<JsonV>) -> Option<JsonV>
    decreases rels.len(),
{
    if rels.len() == 0 {
        None
    } else if is_manga_rel(rels[0]) {
        Some(rels[0])
    } else {
        first_manga(rels.drop_first())
    }
}

/// The tags inside a parent-manga relationship entry.
pub open spec fn rel_tags(rel: Option<JsonV>) -> Option<Seq<JsonV>> {
    match rel {
        Some(JsonV::Obj(rm)) => match jv_get(rm, "attributes"@) {
            Some(JsonV::Obj(am)) => match jv_get(am, "tags"@) {
                Some(JsonV::Arr(tags)) => Some(tags),
                _ => None,
            },
            _ => None,
        },
        _ => None,
    }
}

/// The tag list of a chapter's parent manga.  A chapter without that
/// relationship, or one whose attributes are missing, cannot be
/// classified and is a hard failure.
pub open spec fn tags_of_doc(doc: JsonV) -> Option<Seq<JsonV>> {
    match data_of(doc) {
        Some(JsonV::Obj(cm)) => match jv_get(cm, "relationships"@) {
            Some(JsonV::Arr(rels)) => rel_tags(first_manga(rels)),
            _ => None,
        },
        _ => None,
    }
}

/// Does this tag name the long-strip format in the primary locale?  A
/// tag without that name simply does not match.
pub open spec fn tag_is_long(t: JsonV) -> bool {
    match t {
        JsonV::Obj(tm) => match jv_get(tm, "attributes"@) {
            Some(JsonV::Obj(ta)) => match jv_get(ta, "name"@) {
                Some(JsonV::Obj(nm)) => jv_get(nm, "en"@) == Some(JsonV::Str("Long Strip"@)),
                _ => false,
            },
            _ => false,
        },
        _ => false,
    }
}

pub open spec fn any_long(tags: Seq<JsonV>) -> bool
    decreases tags.len(),
{
    if tags.len() == 0 {
        false
    } else {
        any_long(tags.drop_last()) || tag_is_long(tags.last())
    }
}

fn is_manga_rel_x(j: &Json) -> (r: bool)
    ensures
        r == is_manga_rel(j.jv()),
{
    match j {
        Json::Obj(ms) => {
            proof {
                lemma_jv_members(ms@);
            }
            match obj_get(ms, "type") {
                Some(t) => match t {
                    Json::Str(s) => str_is(s, "manga"),
                    _ => false,
                },
                None => false,
            }
        },
        _ => false,
    }
}

fn tag_is_long_x(j: &Json) -> (r: bool)
    ensures
        r == tag_is_long(j.jv()),
{
    match j {
        Json::Obj(tm) => match obj_get(tm, "attributes") {
            Some(a) => match a {
                Json::Obj(ta) => match obj_get(ta, "name") {
                    Some(n) => match n {
                        Json::Obj(nm) => match obj_get(nm, "en") {
                            Some(e) => match e {
                                Json::Str(s) => str_is(s, "Long Strip"),
                                _ => false,
                            },
                            None => false,
                        },
                        _ => false,
                    },
                    None => false,
                },
                _ => false,
            },
            None => false,
        },
        _ => false,
    }
}

fn any_long_x(tags: &Vec<Json>) -> (r: bool)
    ensures
        r == any_long(jv_seq(tags@)),
{
    proof {
        lemma_jv_seq(tags@);
    }
    let mut found = false;
    let mut i: usize = 0;
    while i < tags.len()
        invariant
            i <= tags@.len(),
            jv_seq(tags@).len() == tags@.len(),
            forall|m: int| 0 <= m < tags@.len() ==> jv_seq(tags@)[m] == (#[trigger] tags@[m]).jv(),
            found == any_long(jv_seq(tags@).take(i as int)),
        decreases tags@.len() - i,
    {
        proof {
            assert(jv_seq(tags@).take(i + 1).drop_last() =~= jv_seq(tags@).take(i as int));
            assert(jv_seq(tags@).take(i + 1).last() == jv_seq(tags@)[i as int]);
        }
        if tag_is_long_x(&tags[i]) {
            found = true;
        }
        i = i + 1;
    }
    proof {
        assert(jv_seq(tags@).take(jv_seq(tags@).len() as int) =~= jv_seq(tags@));
    }
    found
}

fn tags_from_doc(doc: &Json) -> (r: Option<&Vec<Json>>)
    ensures
        match r {
            Some(tags) => tags_of_doc(doc.jv()) == Some(jv_seq(tags@)),
            None => tags_of_doc(doc.jv()) is None,
        },
{
    let data = match doc {
        Json::Obj(ms) => match obj_get(ms, "data") {
            Some(d) => d,
            None => {
                return None;
            },
        },
        _ => {
            return None;
        },
    };
    let cm = match data {
        Json::Obj(cm) => cm,
        _ => {
            return None;
        },
    };
    let rels = match obj_get(cm, "relationships") {
        Some(j) => match j {
            Json::Arr(a) => a,
            _ => {
                return None;
            },
        },
        None => {
            return None;
        },
    };
    proof {
        lemma_jv_seq(rels@);
        assert(jv_seq(rels@).skip(0) =~= jv_seq(rels@));
    }
    let ghost full = jv_seq(rels@);
    let mut i: usize = 0;
    while i < rels.len()
        invariant
            i <= rels@.len(),
            full == jv_seq(rels@),
            full.len() == rels@.len(),
            forall|m: int| 0 <= m < rels@.len() ==> full[m] == (#[trigger] rels@[m]).jv(),
            first_manga(full) == first_manga(full.skip(i as int)),
            tags_of_doc(doc.jv()) == rel_tags(first_manga(full)),
        decreases rels@.len() - i,
    {
        proof {
            assert(full.skip(i as int)[0] == full[i as int]);
            assert(full.skip(i as int).drop_first() =~= full.skip(i + 1));
        }
        if is_manga_rel_x(&rels[i]) {
            let rm = match &rels[i] {
                Json::Obj(rm) => rm,
                _ => {
                    proof {
                        assert(false);
                    }
                    return None;
                },
            };
            let am = match obj_get(rm, "attributes") {
                Some(j) => match j {
                    Json::Obj(am) => am,
                    _ => {
                        return None;
                    },
                },
                None => {
                    return None;
                },
            };
            match obj_get(am, "tags") {
                Some(j) => match j {
                    Json::Arr(a) => {
                        return Some(a);
                    },
                    _ => {
                        return None;
                    },
                },
                None => {
                    return None;
                },
            }
        }
        i = i + 1;
    }
    proof {
        assert(full.skip(full.len() as int).len() == 0);
    }
    None
}

pub open spec fn strs_of(items: Seq<JsonV>) -> Option<Seq<Seq<char>>>
    decreases items.len(),
{
    if items.len() == 0 {
        Some(Seq::empty())
    } else {
        match strs_of(items.drop_last()) {
            Some(pre) => match items.last() {
                JsonV::Str(s) => Some(pre.push(s)),
                _ => None,
            },
            None => None,
        }
    }
}

/// The image-host answer: base URL, content hash, file list.
pub open spec fn at_home_of(doc: JsonV) -> Option<(Seq<char>, Seq<char>, Seq<Seq<char>>)> {
    match doc {
        JsonV::Obj(ms) => match (jv_get(ms, "baseUrl"@), jv_get(ms, "chapter"@)) {
            (Some(JsonV::Str(b)), Some(JsonV::Obj(cm))) => match (jv_get(cm, "hash"@), jv_get(
                cm,
                "data"@,
            )) {
                (Some(JsonV::Str(h)), Some(JsonV::Arr(fs))) => match strs_of(fs) {
                    Some(files) => Some((b, h, files)),
                    None => None,
                },
                _ => None,
            },
            _ => None,
        },
        _ => None,
    }
}

/// One resolved page URL.
pub open spec fn image_url_of(base: Seq<char>, hash: Seq<char>, file: Seq<char>) -> Seq<char> {
    base + "/data/"@ + hash + "/"@ + file
}

pub open spec fn image_urls_of(base: Seq<char>, hash: Seq<char>, files: Seq<Seq<char>>) -> Seq<
    Seq<char>,
>
    decreases files.len(),
{
    if files.len() == 0 {
        Seq::empty()
    } else {
        image_urls_of(base, hash, files.drop_last()).push(
            image_url_of(base, hash, files.last()),
        )
    }
}

pub open spec fn model_strs(s: Seq<String>) -> Seq<Seq<char>>
    decreases s.len(),
{
    if s.len() == 0 {
        Seq::empty()
    } else {
        model_strs(s.drop_last()).push(s.last()@)
    }
}

proof fn lemma_strs_none(s: Seq<JsonV>, k: int)
    requires
        0 <= k <= s.len(),
        strs_of(s.take(k)) is None,
    ensures
        strs_of(s) is None,
    decreases s.len() - k,
{
    if k < s.len() {
        assert(s.take(k + 1).drop_last() =~= s.take(k));
        lemma_strs_none(s, k + 1);
    } else {
        assert(s.take(s.len() as int) =~= s);
    }
}

fn at_home_from(doc: &Json) -> (r: Option<(String, String, Vec<String>)>)
    ensures
        match r {
            Some(p) => at_home_of(doc.jv()) == Some((p.0@, p.1@, model_strs(p.2@))),
            None => at_home_of(doc.jv()) is None,
        },
{
    let ms = match doc {
        Json::Obj(ms) => ms,
        _ => {
            return None;
        },
    };
    let base = match obj_get(ms, "baseUrl") {
        Some(j) => match j {
            Json::Str(s) => s.clone(),
            _ => {
                return None;
            },
        },
        None => {
            return None;
        },
    };
    let cm = match obj_get(ms, "chapter") {
        Some(j) => match j {
            Json::Obj(cm) => cm,
            _ => {
                return None;
            },
        },
        None => {
            return None;
        },
    };
    let hash = match obj_get(cm, "hash") {
        Some(j) => match j {
            Json::Str(s) => s.clone(),
            _ => {
                return None;
            },
        },
        None => {
            return None;
        },
    };
    let fs = match obj_get(cm, "data") {
        Some(j) => match j {
            Json::Arr(a) => a,
            _ => {
                return None;
            },
        },
        None => {
            return None;
        },
    };
    proof {
        lemma_jv_seq(fs@);
    }
    let mut files: Vec<String> = Vec::new();
    let mut i: usize = 0;
    while i < fs.len()
        invariant
            i <= fs@.len(),
            jv_seq(fs@).len() == fs@.len(),
            forall|m: int| 0 <= m < fs@.len() ==> jv_seq(fs@)[m] == (#[trigger] fs@[m]).jv(),
            strs_of(jv_seq(fs@).take(i as int)) == Some(model_strs(files@)),
            at_home_of(doc.jv()) == (match strs_of(jv_seq(fs@)) {
                Some(all) => Some((base@, hash@, all)),
                None => None::<(Seq<char>, Seq<char>, Seq<Seq<char>>)>,
            }),
        decreases fs@.len() - i,
    {
        proof {
            assert(jv_seq(fs@).take(i + 1).drop_last() =~= jv_seq(fs@).take(i as int));
            assert(jv_seq(fs@).take(i + 1).last() == jv_seq(fs@)[i as int]);
        }
        match &fs[i] {
            Json::Str(s) => {
                let f = s.clone();
                proof {
                    assert(files@.push(f).drop_last() =~= files@);
                    assert(model_strs(files@.push(f)).drop_last() =~= model_strs(files@));
                }
                files.push(f);
            },
            _ => {
                proof {
                    assert(strs_of(jv_seq(fs@).take(i + 1)) is None);
                    lemma_strs_none(jv_seq(fs@), i + 1);
                }
                return None;
            },
        }
        i = i + 1;
    }
    proof {
        assert(jv_seq(fs@).take(jv_seq(fs@).len() as int) =~= jv_seq(fs@));
    }
    Some((base, hash, files))
}

/// The payload of a search response: one entry per manga found.
pub open spec fn search_doc(doc: JsonV) -> Option<Seq<(Seq<char>, Seq<char>, Seq<char>, Seq<char>)>> {
    match data_of(doc) {
        Some(JsonV::Arr(items)) => items_of(items),
        _ => None,
    }
}

/// The payload of a manga-detail response.
pub open spec fn manga_doc(doc: JsonV) -> Option<(Seq<char>, Seq<char>, Seq<char>, Seq<char>)> {
    match data_of(doc) {
        Some(v) => search_item_of(v),
        None => None,
    }
}

/// The payload of a chapter-feed response.
pub open spec fn feed_doc(doc: JsonV) -> Option<Seq<(Seq<char>, Seq<char>, (int, int))>> {
    match data_of(doc) {
        Some(JsonV::Arr(items)) => chapters_of(items),
        _ => None,
    }
}

/// The REST adapter.  It carries no state of its own; the network
/// client that fetches its responses lives with the caller.
pub struct MangaDex;

impl MangaDex {
    pub fn new() -> (r: MangaDex) {
        MangaDex
    }

    /// Stable human-readable identifier of this adapter.
    pub fn name(&self) -> (r: &'static str)
        ensures
            r@ == "MangaDex"@,
    {
        "MangaDex"
    }

    /// Base URL used for id-to-request resolution.
    pub fn url(&self) -> (r: &'static str)
        ensures
            r@ == "https://api.mangadex.org"@,
    {
        "https://api.mangadex.org"
    }

    /// The search request: one fixed relational include and a fixed
    /// page size.
    pub fn search_url(&self, query: &str) -> (r: String)
        ensures
            r@ == "https://api.mangadex.org/manga?title="@ + query@
                + "&includes[]=cover_art&limit=50"@,
    {
        let mut u = String::new();
        u.append("https://api.mangadex.org/manga?title=");
        u.append(query);
        u.append("&includes[]=cover_art&limit=50");
        u
    }

    /// The manga-detail request.
    pub fn manga_url(&self, id: &str) -> (r: String)
        ensures
            r@ == "https://api.mangadex.org/manga/"@ + id@ + "?includes[]=cover_art"@,
    {
        let mut u = String::new();
        u.append("https://api.mangadex.org/manga/");
        u.append(id);
        u.append("?includes[]=cover_art");
        u
    }

    /// The chapter-feed request: newest first, one fixed language.
    pub fn feed_url(&self, id: &str) -> (r: String)
        ensures
            r@ == "https://api.mangadex.org/chapter?limit=100&manga="@ + id@
                + "&translatedLanguage[]=en&order[chapter]=desc"@,
    {
        let mut u = String::new();
        u.append("https://api.mangadex.org/chapter?limit=100&manga=");
        u.append(id);
        u.append("&translatedLanguage[]=en&order[chapter]=desc");
        u
    }

    /// The chapter-detail request, with the parent manga included.
    pub fn chapter_url(&self, id: &str) -> (r: String)
        ensures
            r@ == "https://api.mangadex.org/chapter/"@ + id@ + "?includes[]=manga"@,
    {
        let mut u = String::new();
        u.append("https://api.mangadex.org/chapter/");
        u.append(id);
        u.append("?includes[]=manga");
        u
    }

    /// The image-host-resolution request.
    pub fn at_home_url(&self, id: &str) -> (r: String)
        ensures
            r@ == "https://api.mangadex.org/at-home/server/"@ + id@,
    {
        let mut u = String::new();
        u.append("https://api.mangadex.org/at-home/server/");
        u.append(id);
        u
    }

    /// Translate a search response body.
    pub fn parse_search(&self, body: &str) -> (r: Result<Vec<SearchItem>, AdapterError>)
        ensures
            match r {
                Ok(out) => spec_json(body@) is Some && search_doc(spec_json(body@)->0) == Some(
                    model_items(out@),
                ),
                Err(AdapterError::BadJson) => spec_json(body@) is None,
                Err(AdapterError::BadShape) => spec_json(body@) is Some && search_doc(
                    spec_json(body@)->0,
                ) is None,
            },
    {
        let doc = match parse_json(body) {
            Some(doc) => doc,
            None => {
                return Err(AdapterError::BadJson);
            },
        };
        let items = match &doc {
            Json::Obj(ms) => match obj_get(ms, "data") {
                Some(d) => match d {
                    Json::Arr(a) => a,
                    _ => {
                        return Err(AdapterError::BadShape);
                    },
                },
                None => {
                    return Err(AdapterError::BadShape);
                },
            },
            _ => {
                return Err(AdapterError::BadShape);
            },
        };
        match items_from(items) {
            Some(out) => Ok(out),
            None => Err(AdapterError::BadShape),
        }
    }

    /// Translate a manga-detail response and its chapter feed.
    pub fn parse_manga(&self, manga_body: &str, feed_body: &str) -> (r: Result<
        Manga,
        AdapterError,
    >)
        ensures
            match r {
                Ok(m) => {
                    &&& spec_json(manga_body@) is Some
                    &&& spec_json(feed_body@) is Some
                    &&& manga_doc(spec_json(manga_body@)->0) == Some(
                        (m.desc.id@, m.desc.title@, m.desc.description@, m.desc.cover_url@),
                    )
                    &&& feed_doc(spec_json(feed_body@)->0) == Some(model_chapters(m.chapters@))
                    &&& forall|i: int|
                        0 <= i < m.chapters@.len() ==> (#[trigger] m.chapters@[i]).read is None
                },
                Err(AdapterError::BadJson) => spec_json(manga_body@) is None || spec_json(
                    feed_body@,
                ) is None,
                Err(AdapterError::BadShape) => spec_json(manga_body@) is Some && spec_json(
                    feed_body@,
                ) is Some && (manga_doc(spec_json(manga_body@)->0) is None || feed_doc(
                    spec_json(feed_body@)->0,
                ) is None),
            },
    {
        let mdoc = match parse_json(manga_body) {
            Some(doc) => doc,
            None => {
                return Err(AdapterError::BadJson);
            },
        };
        let fdoc = match parse_json(feed_body) {
            Some(doc) => doc,
            None => {
                return Err(AdapterError::BadJson);
            },
        };
        let entry = match &mdoc {
            Json::Obj(ms) => match obj_get(ms, "data") {
                Some(d) => d,
                None => {
                    return Err(AdapterError::BadShape);
                },
            },
            _ => {
                return Err(AdapterError::BadShape);
            },
        };
        let desc = match search_item_from(entry) {
            Some(si) => si,
            None => {
                return Err(AdapterError::BadShape);
            },
        };
        let items = match &fdoc {
            Json::Obj(ms) => match obj_get(ms, "data") {
                Some(d) => match d {
                    Json::Arr(a) => a,
                    _ => {
                        return Err(AdapterError::BadShape);
                    },
                },
                None => {
                    return Err(AdapterError::BadShape);
                },
            },
            _ => {
                return Err(AdapterError::BadShape);
            },
        };
        match chapters_from(items) {
            Some(chapters) => Ok(Manga { desc, chapters }),
            None => Err(AdapterError::BadShape),
        }
    }

    /// Translate a chapter-detail response and the image-host answer
    /// into the resolved page list.  The format is `Long` exactly when
    /// the parent manga carries the long-strip tag.
    pub fn parse_chapter(&self, chapter_body: &str, at_home_body: &str) -> (r: Result<
        ChapterImages,
        AdapterError,
    >)
        ensures
            match r {
                Ok(ci) => {
                    &&& spec_json(chapter_body@) is Some
                    &&& spec_json(at_home_body@) is Some
                    &&& tags_of_doc(spec_json(chapter_body@)->0) is Some
                    &&& at_home_of(spec_json(at_home_body@)->0) is Some
                    &&& ci.format == (if any_long(tags_of_doc(spec_json(chapter_body@)->0)->0) {
                        Format::Long
                    } else {
                        Format::Normal
                    })
                    &&& ({
                        let ah = at_home_of(spec_json(at_home_body@)->0)->0;
                        model_strs(ci.images@) == image_urls_of(ah.0, ah.1, ah.2)
                    })
                },
                Err(AdapterError::BadJson) => spec_json(chapter_body@) is None || spec_json(
                    at_home_body@,
                ) is None,
                Err(AdapterError::BadShape) => spec_json(chapter_body@) is Some && spec_json(
                    at_home_body@,
                ) is Some && (tags_of_doc(spec_json(chapter_body@)->0) is None || at_home_of(
                    spec_json(at_home_body@)->0,
                ) is None),
            },
    {
        let cdoc = match parse_json(chapter_body) {
            Some(doc) => doc,
            None => {
                return Err(AdapterError::BadJson);
            },
        };
        let adoc = match parse_json(at_home_body) {
            Some(doc) => doc,
            None => {
                return Err(AdapterError::BadJson);
            },
        };
        let long = match tags_from_doc(&cdoc) {
            Some(tags) => any_long_x(tags),
            None => {
                return Err(AdapterError::BadShape);
            },
        };
        let (base, hash, files) = match at_home_from(&adoc) {
            Some(p) => p,
            None => {
                return Err(AdapterError::BadShape);
            },
        };
        let ghost ah = at_home_of(adoc.jv())->0;
        proof {
            lemma_model_strs_len(files@);
        }
        let mut images: Vec<String> = Vec::new();
        let mut i: usize = 0;
        while i < files.len()
            invariant
                i <= files@.len(),
                ah.0 == base@,
                ah.1 == hash@,
                ah.2 == model_strs(files@),
                model_strs(files@).len() == files@.len(),
                forall|m: int| 0 <= m < files@.len() ==> model_strs(files@)[m] == (#[trigger] files@[m])@,
                model_strs(images@) == image_urls_of(base@, hash@, model_strs(files@).take(i as int)),
            decreases files@.len() - i,
        {
            let mut u = String::new();
            u.append(base.as_str());
            u.append("/data/");
            u.append(hash.as_str());
            u.append("/");
            u.append(files[i].as_str());
            proof {
                let fm = model_strs(files@);
                assert(fm.take(i + 1).drop_last() =~= fm.take(i as int));
                assert(fm.take(i + 1).last() == fm[i as int]);
                assert(images@.push(u).drop_last() =~= images@);
                assert(model_strs(images@.push(u)).drop_last() =~= model_strs(images@));
            }
            images.push(u);
            i = i + 1;
        }
        proof {
            lemma_model_strs_len(files@);
            lemma_model_strs_len(images@);
            assert(model_strs(files@).take(model_strs(files@).len() as int) =~= model_strs(files@));
        }
        Ok(
            ChapterImages {
                images,
                format: if long {
                    Format::Long
                } else {
                    Format::Normal
                },
            },
        )
    }
}

pub proof fn lemma_model_strs_len(s: Seq<String>)
    ensures
        model_strs(s).len() == s.len(),
        forall|i: int| 0 <= i < s.len() ==> model_strs(s)[i] == (#[trigger] s[i])@,
    decreases s.len(),
{
    if s.len() > 0 {
        lemma_model_strs_len(s.drop_last());
        assert forall|i: int| 0 <= i < s.len() implies model_strs(s)[i] == (#[trigger] s[i])@ by {
            if i < s.len() - 1 {
                assert(s.drop_last()[i] == s[i]);
            }
        }
    }
}

/// A run of digits reported by the scanner is in fact all digits.
proof fn lemma_digits_run_digits(s: Seq<char>, from: int, to: int)
    requires
        0 <= from <= to <= s.len(),
        digits_len(s.skip(from)) == to - from,
    ensures
        forall|m: int| from <= m < to ==> is_digit(#[trigger] s[m]),
    decreases to - from,
{
    if from < to {
        assert(s.skip(from)[0] == s[from]);
        assert(s.skip(from).drop_first() =~= s.skip(from + 1));
        lemma_digits_run_digits(s, from + 1, to);
    }
}

} // verus!
