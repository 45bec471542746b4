//! The preference file: how a [`PrefData`] is written as one JSON
//! document and read back.
//!
//! Each of the three tables is stored as an array of flat records keyed
//! by adapter index and id — not as nested per-adapter objects — and a
//! record's number is its adapter index in decimal.  The reader accepts
//! exactly the shape the writer produces, in the writer's member order,
//! rejects anything else, and rejects duplicate keys, so a loaded store
//! is always well formed.  A file in any other layout is reported as
//! malformed at load.

use vstd::prelude::*;

use crate::assoc::{lemma_push_nodup, nodup_by, seq_has};
use crate::json::{
    dec_digits, dec_val, hex_digit, is_digit, is_digit_seq, render_json, parse_json, jv_members,
    jv_seq, lemma_jv_members, lemma_jv_seq, Json, JsonV,
};
use crate::model::Format;
use crate::prefs::{
    liked_key, read_key, view_key, PrefData, ReadEntry, StoredManga, UserPrefs, ViewEntry,
};
use crate::text::{chars_of, string_from_chars};
use vstd::string::StringExecFns;

verus! {

/// The liked table as plain keys.
pub open spec fn model_liked(s: Seq<StoredManga>) -> Seq<(int, Seq<char>)>
    decreases s.len(),
{
    if s.len() == 0 {
        Seq::empty()
    } else {
        model_liked(s.drop_last()).push(s.last().key())
    }
}

/// The view table as plain keyed records.
pub open spec fn model_views(s: Seq<ViewEntry>) -> Seq<(int, Seq<char>, Format)>
    decreases s.len(),
{
    if s.len() == 0 {
        Seq::empty()
    } else {
        model_views(s.drop_last()).push(
            (s.last().connector_idx as int, s.last().manga_id@, s.last().format),
        )
    }
}

/// The read table as plain keys.
pub open spec fn model_read(s: Seq<ReadEntry>) -> Seq<(int, Seq<char>)>
    decreases s.len(),
{
    if s.len() == 0 {
        Seq::empty()
    } else {
        model_read(s.drop_last()).push(s.last().key())
    }
}

pub proof fn lemma_model_liked(s: Seq<StoredManga>)
    ensures
        model_liked(s).len() == s.len(),
        forall|j: int| 0 <= j < s.len() ==> model_liked(s)[j] == (#[trigger] s[j]).key(),
    decreases s.len(),
{
    if s.len() > 0 {
        lemma_model_liked(s.drop_last());
        assert forall|j: int| 0 <= j < s.len() implies model_liked(s)[j] == (#[trigger] s[j]).key()
            by {
            if j < s.len() - 1 {
                assert(s.drop_last()[j] == s[j]);
            }
        }
    }
}

pub proof fn lemma_model_views(s: Seq<ViewEntry>)
    ensures
        model_views(s).len() == s.len(),
        forall|j: int|
            0 <= j < s.len() ==> model_views(s)[j] == ((#[trigger] s[j]).connector_idx as int,
            s[j].manga_id@, s[j].format),
    decreases s.len(),
{
    if s.len() > 0 {
        lemma_model_views(s.drop_last());
        assert forall|j: int| 0 <= j < s.len() implies model_views(s)[j] == ((#[trigger] s[j]).connector_idx as int,
            s[j].manga_id@, s[j].format) by {
            if j < s.len() - 1 {
                assert(s.drop_last()[j] == s[j]);
            }
        }
    }
}

pub proof fn lemma_model_read(s: Seq<ReadEntry>)
    ensures
        model_read(s).len() == s.len(),
        forall|j: int| 0 <= j < s.len() ==> model_read(s)[j] == (#[trigger] s[j]).key(),
    decreases s.len(),
{
    if s.len() > 0 {
        lemma_model_read(s.drop_last());
        assert forall|j: int| 0 <= j < s.len() implies model_read(s)[j] == (#[trigger] s[j]).key()
            by {
            if j < s.len() - 1 {
                assert(s.drop_last()[j] == s[j]);
            }
        }
    }
}

/// The stored name of a view mode.
pub open spec fn fmt_seq(f: Format) -> Seq<char> {
    match f {
        Format::Long => "Long"@,
        Format::Normal => "Normal"@,
    }
}

/// One liked record as a JSON value.
pub open spec fn liked_item_jv(idx: int, id: Seq<char>) -> JsonV {
    JsonV::Obj(
        seq![
            ("connector_idx"@, JsonV::Num(dec_digits(idx as nat))),
            ("manga_id"@, JsonV::Str(id)),
        ],
    )
}

/// One view record as a JSON value.
pub open spec fn view_item_jv(idx: int, id: Seq<char>, f: Format) -> JsonV {
    JsonV::Obj(
        seq![
            ("connector_idx"@, JsonV::Num(dec_digits(idx as nat))),
            ("manga_id"@, JsonV::Str(id)),
            ("format"@, JsonV::Str(fmt_seq(f))),
        ],
    )
}

/// One read record as a JSON value.
pub open spec fn read_item_jv(idx: int, id: Seq<char>) -> JsonV {
    JsonV::Obj(
        seq![
            ("connector_idx"@, JsonV::Num(dec_digits(idx as nat))),
            ("chapter_id"@, JsonV::Str(id)),
        ],
    )
}

pub open spec fn liked_jv_seq(s: Seq<(int, Seq<char>)>) -> Seq<JsonV>
    decreases s.len(),
{
    if s.len() == 0 {
        Seq::empty()
    } else {
        liked_jv_seq(s.drop_last()).push(liked_item_jv(s.last().0, s.last().1))
    }
}

pub open spec fn views_jv_seq(s: Seq<(int, Seq<char>, Format)>) -> Seq<JsonV>
    decreases s.len(),
{
    if s.len() == 0 {
        Seq::empty()
    } else {
        views_jv_seq(s.drop_last()).push(
            view_item_jv(s.last().0, s.last().1, s.last().2),
        )
    }
}

pub open spec fn read_jv_seq(s: Seq<(int, Seq<char>)>) -> Seq<JsonV>
    decreases s.len(),
{
    if s.len() == 0 {
        Seq::empty()
    } else {
        read_jv_seq(s.drop_last()).push(read_item_jv(s.last().0, s.last().1))
    }
}

/// The whole preference file as a JSON value.
pub open spec fn pref_jv(
    liked: Seq<(int, Seq<char>)>,
    views: Seq<(int, Seq<char>, Format)>,
    read: Seq<(int, Seq<char>)>,
) -> JsonV {
    JsonV::Obj(
        seq![
            ("liked"@, JsonV::Arr(liked_jv_seq(liked))),
            ("views"@, JsonV::Arr(views_jv_seq(views))),
            ("read"@, JsonV::Arr(read_jv_seq(read))),
        ],
    )
}

impl PrefData {
    pub open spec fn liked_model(self) -> Seq<(int, Seq<char>)> {
        model_liked(self.liked@)
    }

    pub open spec fn views_model(self) -> Seq<(int, Seq<char>, Format)> {
        model_views(self.views@)
    }

    pub open spec fn read_model(self) -> Seq<(int, Seq<char>)> {
        model_read(self.read@)
    }
}

/// A decoded liked record: its key, if the value has exactly the
/// written shape and the index fits.
pub open spec fn decode_liked_item(v: JsonV) -> Option<(int, Seq<char>)> {
    match v {
        JsonV::Obj(ms) => if ms.len() == 2 && ms[0].0 == "connector_idx"@ && ms[1].0
            == "manga_id"@ {
            match (ms[0].1, ms[1].1) {
                (JsonV::Num(l), JsonV::Str(id)) => if is_digit_seq(l) && dec_val(l) <= u32::MAX {
                    Some((dec_val(l), id))
                } else {
                    None
                },
                _ => None,
            }
        } else {
            None
        },
        _ => None,
    }
}

pub open spec fn decode_view_item(v: JsonV) -> Option<(int, Seq<char>, Format)> {
    match v {
        JsonV::Obj(ms) => if ms.len() == 3 && ms[0].0 == "connector_idx"@ && ms[1].0
            == "manga_id"@ && ms[2].0 == "format"@ {
            match (ms[0].1, ms[1].1, ms[2].1) {
                (JsonV::Num(l), JsonV::Str(id), JsonV::Str(fs)) => if is_digit_seq(l) && dec_val(
                    l,
                ) <= u32::MAX {
                    if fs == "Long"@ {
                        Some((dec_val(l), id, Format::Long))
                    } else if fs == "Normal"@ {
                        Some((dec_val(l), id, Format::Normal))
                    } else {
                        None
                    }
                } else {
                    None
                },
                _ => None,
            }
        } else {
            None
        },
        _ => None,
    }
}

pub open spec fn decode_read_item(v: JsonV) -> Option<(int, Seq<char>)> {
    match v {
        JsonV::Obj(ms) => if ms.len() == 2 && ms[0].0 == "connector_idx"@ && ms[1].0
            == "chapter_id"@ {
            match (ms[0].1, ms[1].1) {
                (JsonV::Num(l), JsonV::Str(id)) => if is_digit_seq(l) && dec_val(l) <= u32::MAX {
                    Some((dec_val(l), id))
                } else {
                    None
                },
                _ => None,
            }
        } else {
            None
        },
        _ => None,
    }
}

/// Decode a liked array; a repeated key makes the whole file invalid.
pub open spec fn decode_liked_seq(s: Seq<JsonV>) -> Option<Seq<(int, Seq<char>)>>
    decreases s.len(),
{
    if s.len() == 0 {
        Some(Seq::empty())
    } else {
        match decode_liked_seq(s.drop_last()) {
            Some(pre) => match decode_liked_item(s.last()) {
                Some(k) => if pre.contains(k) {
                    None
                } else {
                    Some(pre.push(k))
                },
                None => None,
            },
            None => None,
        }
    }
}

pub open spec fn decode_views_seq(s: Seq<JsonV>) -> Option<Seq<(int, Seq<char>, Format)>>
    decreases s.len(),
{
    if s.len() == 0 {
        Some(Seq::empty())
    } else {
        match decode_views_seq(s.drop_last()) {
            Some(pre) => match decode_view_item(s.last()) {
                Some(k) => if exists|j: int|
                    0 <= j < pre.len() && ((#[trigger] pre[j]).0, pre[j].1) == (k.0, k.1) {
                    None
                } else {
                    Some(pre.push(k))
                },
                None => None,
            },
            None => None,
        }
    }
}

pub open spec fn decode_read_seq(s: Seq<JsonV>) -> Option<Seq<(int, Seq<char>)>>
    decreases s.len(),
{
    if s.len() == 0 {
        Some(Seq::empty())
    } else {
        match decode_read_seq(s.drop_last()) {
            Some(pre) => match decode_read_item(s.last()) {
                Some(k) => if pre.contains(k) {
                    None
                } else {
                    Some(pre.push(k))
                },
                None => None,
            },
            None => None,
        }
    }
}

/// Decode a whole preference document.
pub open spec fn decode_pref(v: JsonV) -> Option<
    (Seq<(int, Seq<char>)>, Seq<(int, Seq<char>, Format)>, Seq<(int, Seq<char>)>),
> {
    match v {
        JsonV::Obj(ms) => if ms.len() == 3 && ms[0].0 == "liked"@ && ms[1].0 == "views"@
            && ms[2].0 == "read"@ {
            match (ms[0].1, ms[1].1, ms[2].1) {
                (JsonV::Arr(ls), JsonV::Arr(vs), JsonV::Arr(rs)) => match (decode_liked_seq(ls),
                decode_views_seq(vs), decode_read_seq(rs)) {
                    (Some(lm), Some(vm), Some(rm)) => Some((lm, vm, rm)),
                    _ => None,
                },
                _ => None,
            }
        } else {
            None
        },
        _ => None,
    }
}

/// The kinds of failure the preference loader reports.
#[derive(Clone, Copy, PartialEq, Eq, Structural, Debug)]
pub enum PrefError {
    /// The file's text is not the JSON document the store writes.
    Malformed,
}

fn lit_string(lit: &str) -> (r: String)
    ensures
        r@ == lit@,
{
    let mut s = String::new();
    s.append(lit);
    s
}

fn str_is(s: &String, lit: &str) -> (r: bool)
    ensures
        r == (s@ == lit@),
{
    let t = lit_string(lit);
    *s == t
}

/// The decimal digits of `n`.
fn u32_to_dec(n: u32) -> (r: Vec<char>)
    ensures
        r@ == dec_digits(n as nat),
    decreases n,
{
    if n < 10 {
        let mut v: Vec<char> = Vec::new();
        v.push(hex_digit(n));
        proof {
            assert(v@ =~= dec_digits(n as nat));
        }
        v
    } else {
        let mut v = u32_to_dec(n / 10);
        v.push(hex_digit(n % 10));
        v
    }
}

/// Read a decimal `u32`; `None` when the text is not plain digits or
/// does not fit.
fn parse_u32(s: &String) -> (r: Option<u32>)
    ensures
        match r {
            Some(n) => is_digit_seq(s@) && dec_val(s@) == n as int,
            None => !(is_digit_seq(s@) && dec_val(s@) <= u32::MAX),
        },
{
    let cs = chars_of(s.as_str());
    if cs.len() == 0 {
        return None;
    }
    let mut acc: u64 = 0;
    let mut k: usize = 0;
    while k < cs.len()
        invariant
            k <= cs@.len(),
            cs@ == s@,
            cs@.len() > 0,
            acc as int == dec_val(cs@.take(k as int)),
            acc <= u32::MAX,
            forall|j: int| 0 <= j < k ==> is_digit(#[trigger] cs@[j]),
        decreases cs@.len() - k,
    {
        let c = cs[k];
        if !('0' <= c && c <= '9') {
            return None;
        }
        proof {
            assert(cs@.take(k + 1).drop_last() =~= cs@.take(k as int));
            assert(cs@.take(k + 1).last() == cs@[k as int]);
        }
        let d = crate::text::char_code(c) - crate::text::char_code('0');
        proof {
            assert(d as int == c as int - '0' as int);
        }
        acc = acc * 10 + (d as u64);
        if acc > 0xFFFF_FFFF {
            proof {
                lemma_dec_val_grows(cs@, k + 1);
            }
            return None;
        }
        k = k + 1;
    }
    proof {
        assert(cs@.take(cs@.len() as int) =~= cs@);
    }
    Some(acc as u32)
}

/// Digit sequences only grow when extended: a too-large prefix means a
/// too-large number.
pub proof fn lemma_dec_val_grows(l: Seq<char>, k: int)
    requires
        0 <= k <= l.len(),
        forall|j: int| 0 <= j < k ==> is_digit(#[trigger] l[j]),
    ensures
        forall|j: int| 0 <= j < k ==> dec_val(l.take(j)) >= 0,
        is_digit_seq(l) ==> dec_val(l) >= dec_val(l.take(k)) >= 0,
    decreases l.len() - k,
{
    lemma_dec_val_nonneg(l, k);
    if is_digit_seq(l) {
        lemma_dec_val_mono(l, k);
    }
}

pub proof fn lemma_dec_val_nonneg(l: Seq<char>, k: int)
    requires
        0 <= k <= l.len(),
        forall|j: int| 0 <= j < k ==> is_digit(#[trigger] l[j]),
    ensures
        forall|j: int| 0 <= j <= k ==> dec_val(l.take(j)) >= 0,
    decreases k,
{
    if k > 0 {
        lemma_dec_val_nonneg(l, k - 1);
        assert(l.take(k).drop_last() =~= l.take(k - 1));
        assert(l.take(k).last() == l[k - 1]);
    }
}

pub proof fn lemma_dec_val_mono(l: Seq<char>, k: int)
    requires
        0 <= k <= l.len(),
        is_digit_seq(l),
    ensures
        dec_val(l) >= dec_val(l.take(k)) >= 0,
    decreases l.len() - k,
{
    lemma_dec_val_nonneg(l, k);
    if k < l.len() {
        assert(l.take(k + 1).drop_last() =~= l.take(k as int));
        assert(l.take(k + 1).last() == l[k as int]);
        lemma_dec_val_mono(l, k + 1);
    } else {
        assert(l.take(l.len() as int) =~= l);
    }
}

fn liked_item_tree(e: &StoredManga) -> (r: Json)
    ensures
        r.jv() == liked_item_jv(e.connector_idx as int, e.manga_id@),
{
    let digits = u32_to_dec(e.connector_idx);
    let mut ms: Vec<(String, Json)> = Vec::new();
    ms.push((lit_string("connector_idx"), Json::Num(string_from_chars(&digits))));
    ms.push((lit_string("manga_id"), Json::Str(e.manga_id.clone())));
    let r = Json::Obj(ms);
    proof {
        match &r {
            Json::Obj(m) => {
                lemma_jv_members(m@);
                assert(jv_members(m@) =~= seq![
                    ("connector_idx"@, JsonV::Num(dec_digits(e.connector_idx as nat))),
                    ("manga_id"@, JsonV::Str(e.manga_id@)),
                ]);
            },
            _ => {},
        }
    }
    r
}

fn view_item_tree(e: &ViewEntry) -> (r: Json)
    ensures
        r.jv() == view_item_jv(e.connector_idx as int, e.manga_id@, e.format),
{
    let digits = u32_to_dec(e.connector_idx);
    let fmt_name = match e.format {
        Format::Long => lit_string("Long"),
        Format::Normal => lit_string("Normal"),
    };
    let mut ms: Vec<(String, Json)> = Vec::new();
    ms.push((lit_string("connector_idx"), Json::Num(string_from_chars(&digits))));
    ms.push((lit_string("manga_id"), Json::Str(e.manga_id.clone())));
    ms.push((lit_string("format"), Json::Str(fmt_name)));
    let r = Json::Obj(ms);
    proof {
        match &r {
            Json::Obj(m) => {
                lemma_jv_members(m@);
                assert(jv_members(m@) =~= seq![
                    ("connector_idx"@, JsonV::Num(dec_digits(e.connector_idx as nat))),
                    ("manga_id"@, JsonV::Str(e.manga_id@)),
                    ("format"@, JsonV::Str(fmt_seq(e.format))),
                ]);
            },
            _ => {},
        }
    }
    r
}

fn read_item_tree(e: &ReadEntry) -> (r: Json)
    ensures
        r.jv() == read_item_jv(e.connector_idx as int, e.chapter_id@),
{
    let digits = u32_to_dec(e.connector_idx);
    let mut ms: Vec<(String, Json)> = Vec::new();
    ms.push((lit_string("connector_idx"), Json::Num(string_from_chars(&digits))));
    ms.push((lit_string("chapter_id"), Json::Str(e.chapter_id.clone())));
    let r = Json::Obj(ms);
    proof {
        match &r {
            Json::Obj(m) => {
                lemma_jv_members(m@);
                assert(jv_members(m@) =~= seq![
                    ("connector_idx"@, JsonV::Num(dec_digits(e.connector_idx as nat))),
                    ("chapter_id"@, JsonV::Str(e.chapter_id@)),
                ]);
            },
            _ => {},
        }
    }
    r
}

/// The JSON tree the store writes for its state.
pub fn to_json(d: &PrefData) -> (r: Json)
    ensures
        r.jv() == pref_jv(d.liked_model(), d.views_model(), d.read_model()),
{
    let mut liked_arr: Vec<Json> = Vec::new();
    let mut i: usize = 0;
    while i < d.liked.len()
        invariant
            i <= d.liked@.len(),
            jv_seq(liked_arr@) == liked_jv_seq(model_liked(d.liked@.take(i as int))),
        decreases d.liked@.len() - i,
    {
        let item = liked_item_tree(&d.liked[i]);
        proof {
            assert(d.liked@.take(i + 1).drop_last() =~= d.liked@.take(i as int));
            assert(d.liked@.take(i + 1).last() == d.liked@[i as int]);
            let m = model_liked(d.liked@.take(i + 1));
            assert(m.drop_last() =~= model_liked(d.liked@.take(i as int)));
            assert(liked_arr@.push(item).drop_last() =~= liked_arr@);
        }
        liked_arr.push(item);
        i = i + 1;
    }
    let mut views_arr: Vec<Json> = Vec::new();
    let mut i: usize = 0;
    while i < d.views.len()
        invariant
            i <= d.views@.len(),
            jv_seq(views_arr@) == views_jv_seq(model_views(d.views@.take(i as int))),
        decreases d.views@.len() - i,
    {
        let item = view_item_tree(&d.views[i]);
        proof {
            assert(d.views@.take(i + 1).drop_last() =~= d.views@.take(i as int));
            assert(d.views@.take(i + 1).last() == d.views@[i as int]);
            let m = model_views(d.views@.take(i + 1));
            assert(m.drop_last() =~= model_views(d.views@.take(i as int)));
            assert(views_arr@.push(item).drop_last() =~= views_arr@);
        }
        views_arr.push(item);
        i = i + 1;
    }
    let mut read_arr: Vec<Json> = Vec::new();
    let mut i: usize = 0;
    while i < d.read.len()
        invariant
            i <= d.read@.len(),
            jv_seq(read_arr@) == read_jv_seq(model_read(d.read@.take(i as int))),
        decreases d.read@.len() - i,
    {
        let item = read_item_tree(&d.read[i]);
        proof {
            assert(d.read@.take(i + 1).drop_last() =~= d.read@.take(i as int));
            assert(d.read@.take(i + 1).last() == d.read@[i as int]);
            let m = model_read(d.read@.take(i + 1));
            assert(m.drop_last() =~= model_read(d.read@.take(i as int)));
            assert(read_arr@.push(item).drop_last() =~= read_arr@);
        }
        read_arr.push(item);
        i = i + 1;
    }
    proof {
        assert(d.liked@.take(d.liked@.len() as int) =~= d.liked@);
        assert(d.views@.take(d.views@.len() as int) =~= d.views@);
        assert(d.read@.take(d.read@.len() as int) =~= d.read@);
    }
    let mut members: Vec<(String, Json)> = Vec::new();
    members.push((lit_string("liked"), Json::Arr(liked_arr)));
    members.push((lit_string("views"), Json::Arr(views_arr)));
    members.push((lit_string("read"), Json::Arr(read_arr)));
    let r = Json::Obj(members);
    proof {
        match &r {
            Json::Obj(m) => {
                lemma_jv_members(m@);
                assert(jv_members(m@) =~= seq![
                    ("liked"@, JsonV::Arr(liked_jv_seq(d.liked_model()))),
                    ("views"@, JsonV::Arr(views_jv_seq(d.views_model()))),
                    ("read"@, JsonV::Arr(read_jv_seq(d.read_model()))),
                ]);
            },
            _ => {},
        }
    }
    r
}

fn parse_liked_item(j: &Json) -> (r: Option<StoredManga>)
    ensures
        match r {
            Some(e) => decode_liked_item(j.jv()) == Some((e.connector_idx as int, e.manga_id@)),
            None => decode_liked_item(j.jv()) is None,
        },
{
    match j {
        Json::Obj(ms) => {
            proof {
                lemma_jv_members(ms@);
            }
            if ms.len() != 2 {
                return None;
            }
            if !str_is(&ms[0].0, "connector_idx") || !str_is(&ms[1].0, "manga_id") {
                return None;
            }
            let n = match &ms[0].1 {
                Json::Num(l) => match parse_u32(l) {
                    Some(n) => n,
                    None => {
                        return None;
                    },
                },
                _ => {
                    return None;
                },
            };
            let id = match &ms[1].1 {
                Json::Str(s) => s.clone(),
                _ => {
                    return None;
                },
            };
            Some(StoredManga { connector_idx: n, manga_id: id })
        },
        _ => None,
    }
}

fn parse_view_item(j: &Json) -> (r: Option<ViewEntry>)
    ensures
        match r {
            Some(e) => decode_view_item(j.jv()) == Some(
                (e.connector_idx as int, e.manga_id@, e.format),
            ),
            None => decode_view_item(j.jv()) is None,
        },
{
    match j {
        Json::Obj(ms) => {
            proof {
                lemma_jv_members(ms@);
            }
            if ms.len() != 3 {
                return None;
            }
            if !str_is(&ms[0].0, "connector_idx") || !str_is(&ms[1].0, "manga_id") || !str_is(
                &ms[2].0,
                "format",
            ) {
                return None;
            }
            let n = match &ms[0].1 {
                Json::Num(l) => match parse_u32(l) {
                    Some(n) => n,
                    None => {
                        return None;
                    },
                },
                _ => {
                    return None;
                },
            };
            let id = match &ms[1].1 {
                Json::Str(s) => s.clone(),
                _ => {
                    return None;
                },
            };
            let f = match &ms[2].1 {
                Json::Str(s) => {
                    if str_is(s, "Long") {
                        Format::Long
                    } else if str_is(s, "Normal") {
                        Format::Normal
                    } else {
                        return None;
                    }
                },
                _ => {
                    return None;
                },
            };
            Some(ViewEntry { connector_idx: n, manga_id: id, format: f })
        },
        _ => None,
    }
}

fn parse_read_item(j: &Json) -> (r: Option<ReadEntry>)
    ensures
        match r {
            Some(e) => decode_read_item(j.jv()) == Some((e.connector_idx as int, e.chapter_id@)),
            None => decode_read_item(j.jv()) is None,
        },
{
    match j {
        Json::Obj(ms) => {
            proof {
                lemma_jv_members(ms@);
            }
            if ms.len() != 2 {
                return None;
            }
            if !str_is(&ms[0].0, "connector_idx") || !str_is(&ms[1].0, "chapter_id") {
                return None;
            }
            let n = match &ms[0].1 {
                Json::Num(l) => match parse_u32(l) {
                    Some(n) => n,
                    None => {
                        return None;
                    },
                },
                _ => {
                    return None;
                },
            };
            let id = match &ms[1].1 {
                Json::Str(s) => s.clone(),
                _ => {
                    return None;
                },
            };
            Some(ReadEntry { connector_idx: n, chapter_id: id })
        },
        _ => None,
    }
}

proof fn lemma_decode_liked_none(s: Seq<JsonV>, k: int)
    requires
        0 <= k <= s.len(),
        decode_liked_seq(s.take(k)) is None,
    ensures
        decode_liked_seq(s) is None,
    decreases s.len() - k,
{
    if k < s.len() {
        assert(s.take(k + 1).drop_last() =~= s.take(k));
        lemma_decode_liked_none(s, k + 1);
    } else {
        assert(s.take(s.len() as int) =~= s);
    }
}

proof fn lemma_decode_views_none(s: Seq<JsonV>, k: int)
    requires
        0 <= k <= s.len(),
        decode_views_seq(s.take(k)) is None,
    ensures
        decode_views_seq(s) is None,
    decreases s.len() - k,
{
    if k < s.len() {
        assert(s.take(k + 1).drop_last() =~= s.take(k));
        lemma_decode_views_none(s, k + 1);
    } else {
        assert(s.take(s.len() as int) =~= s);
    }
}

proof fn lemma_decode_read_none(s: Seq<JsonV>, k: int)
    requires
        0 <= k <= s.len(),
        decode_read_seq(s.take(k)) is None,
    ensures
        decode_read_seq(s) is None,
    decreases s.len() - k,
{
    if k < s.len() {
        assert(s.take(k + 1).drop_last() =~= s.take(k));
        lemma_decode_read_none(s, k + 1);
    } else {
        assert(s.take(s.len() as int) =~= s);
    }
}

fn parse_liked_arr(a: &Vec<Json>) -> (r: Option<Vec<StoredManga>>)
    ensures
        match r {
            Some(out) => decode_liked_seq(jv_seq(a@)) == Some(model_liked(out@)) && nodup_by(
                out@,
                liked_key(),
            ),
            None => decode_liked_seq(jv_seq(a@)) is None,
        },
{
    proof {
        lemma_jv_seq(a@);
    }
    let mut out: Vec<StoredManga> = Vec::new();
    let mut i: usize = 0;
    while i < a.len()
        invariant
            i <= a@.len(),
            jv_seq(a@).len() == a@.len(),
            forall|m: int| 0 <= m < a@.len() ==> jv_seq(a@)[m] == (#[trigger] a@[m]).jv(),
            decode_liked_seq(jv_seq(a@).take(i as int)) == Some(model_liked(out@)),
            nodup_by(out@, liked_key()),
        decreases a@.len() - i,
    {
        let ghost pref = jv_seq(a@).take(i as int);
        proof {
            assert(jv_seq(a@).take(i + 1).drop_last() =~= pref);
            assert(jv_seq(a@).take(i + 1).last() == jv_seq(a@)[i as int]);
        }
        match parse_liked_item(&a[i]) {
            None => {
                proof {
                    assert(decode_liked_seq(jv_seq(a@).take(i + 1)) is None);
                    lemma_decode_liked_none(jv_seq(a@), i + 1);
                }
                return None;
            },
            Some(e) => {
                if liked_key_present(&out, e.connector_idx, &e.manga_id) {
                    proof {
                        assert(decode_liked_seq(jv_seq(a@).take(i + 1)) is None);
                        lemma_decode_liked_none(jv_seq(a@), i + 1);
                    }
                    return None;
                }
                proof {
                    lemma_model_liked(out@);
                    assert(!seq_has(out@, crate::prefs::liked_key_is(e.connector_idx as int, e.manga_id@))) by {
                        if seq_has(out@, crate::prefs::liked_key_is(e.connector_idx as int, e.manga_id@)) {
                            let x = choose|x: StoredManga|
                                out@.contains(x) && crate::prefs::liked_key_is(
                                    e.connector_idx as int,
                                    e.manga_id@,
                                )(x);
                            let m = choose|m: int| 0 <= m < out@.len() && out@[m] == x;
                            assert(model_liked(out@)[m] == (e.connector_idx as int, e.manga_id@));
                        }
                    }
                    lemma_push_nodup(out@, e, liked_key());
                    assert(out@.push(e).drop_last() =~= out@);
                    assert(model_liked(out@.push(e)).drop_last() =~= model_liked(out@));
                }
                out.push(e);
            },
        }
        i = i + 1;
    }
    proof {
        assert(jv_seq(a@).take(jv_seq(a@).len() as int) =~= jv_seq(a@));
    }
    Some(out)
}

fn parse_views_arr(a: &Vec<Json>) -> (r: Option<Vec<ViewEntry>>)
    ensures
        match r {
            Some(out) => decode_views_seq(jv_seq(a@)) == Some(model_views(out@)) && nodup_by(
                out@,
                view_key(),
            ),
            None => decode_views_seq(jv_seq(a@)) is None,
        },
{
    proof {
        lemma_jv_seq(a@);
    }
    let mut out: Vec<ViewEntry> = Vec::new();
    let mut i: usize = 0;
    while i < a.len()
        invariant
            i <= a@.len(),
            jv_seq(a@).len() == a@.len(),
            forall|m: int| 0 <= m < a@.len() ==> jv_seq(a@)[m] == (#[trigger] a@[m]).jv(),
            decode_views_seq(jv_seq(a@).take(i as int)) == Some(model_views(out@)),
            nodup_by(out@, view_key()),
        decreases a@.len() - i,
    {
        let ghost pref = jv_seq(a@).take(i as int);
        proof {
            assert(jv_seq(a@).take(i + 1).drop_last() =~= pref);
            assert(jv_seq(a@).take(i + 1).last() == jv_seq(a@)[i as int]);
        }
        match parse_view_item(&a[i]) {
            None => {
                proof {
                    assert(decode_views_seq(jv_seq(a@).take(i + 1)) is None);
                    lemma_decode_views_none(jv_seq(a@), i + 1);
                }
                return None;
            },
            Some(e) => {
                if view_key_present(&out, e.connector_idx, &e.manga_id) {
                    proof {
                        assert(decode_views_seq(jv_seq(a@).take(i + 1)) is None);
                        lemma_decode_views_none(jv_seq(a@), i + 1);
                    }
                    return None;
                }
                proof {
                    lemma_model_views(out@);
                    assert(!seq_has(out@, crate::prefs::view_key_is(e.connector_idx as int, e.manga_id@))) by {
                        if seq_has(out@, crate::prefs::view_key_is(e.connector_idx as int, e.manga_id@)) {
                            let x = choose|x: ViewEntry|
                                out@.contains(x) && crate::prefs::view_key_is(
                                    e.connector_idx as int,
                                    e.manga_id@,
                                )(x);
                            let m = choose|m: int| 0 <= m < out@.len() && out@[m] == x;
                            assert((model_views(out@)[m].0, model_views(out@)[m].1) == (
                                e.connector_idx as int,
                                e.manga_id@,
                            ));
                        }
                    }
                    lemma_push_nodup(out@, e, view_key());
                    assert(out@.push(e).drop_last() =~= out@);
                    assert(model_views(out@.push(e)).drop_last() =~= model_views(out@));
                }
                out.push(e);
            },
        }
        i = i + 1;
    }
    proof {
        assert(jv_seq(a@).take(jv_seq(a@).len() as int) =~= jv_seq(a@));
    }
    Some(out)
}

fn parse_read_arr(a: &Vec<Json>) -> (r: Option<Vec<ReadEntry>>)
    ensures
        match r {
            Some(out) => decode_read_seq(jv_seq(a@)) == Some(model_read(out@)) && nodup_by(
                out@,
                read_key(),
            ),
            None => decode_read_seq(jv_seq(a@)) is None,
        },
{
    proof {
        lemma_jv_seq(a@);
    }
    let mut out: Vec<ReadEntry> = Vec::new();
    let mut i: usize = 0;
    while i < a.len()
        invariant
            i <= a@.len(),
            jv_seq(a@).len() == a@.len(),
            forall|m: int| 0 <= m < a@.len() ==> jv_seq(a@)[m] == (#[trigger] a@[m]).jv(),
            decode_read_seq(jv_seq(a@).take(i as int)) == Some(model_read(out@)),
            nodup_by(out@, read_key()),
        decreases a@.len() - i,
    {
        let ghost pref = jv_seq(a@).take(i as int);
        proof {
            assert(jv_seq(a@).take(i + 1).drop_last() =~= pref);
            assert(jv_seq(a@).take(i + 1).last() == jv_seq(a@)[i as int]);
        }
        match parse_read_item(&a[i]) {
            None => {
                proof {
                    assert(decode_read_seq(jv_seq(a@).take(i + 1)) is None);
                    lemma_decode_read_none(jv_seq(a@), i + 1);
                }
                return None;
            },
            Some(e) => {
                if read_key_present(&out, e.connector_idx, &e.chapter_id) {
                    proof {
                        assert(decode_read_seq(jv_seq(a@).take(i + 1)) is None);
                        lemma_decode_read_none(jv_seq(a@), i + 1);
                    }
                    return None;
                }
                proof {
                    lemma_model_read(out@);
                    assert(!seq_has(out@, crate::prefs::read_key_is(e.connector_idx as int, e.chapter_id@))) by {
                        if seq_has(out@, crate::prefs::read_key_is(e.connector_idx as int, e.chapter_id@)) {
                            let x = choose|x: ReadEntry|
                                out@.contains(x) && crate::prefs::read_key_is(
                                    e.connector_idx as int,
                                    e.chapter_id@,
                                )(x);
                            let m = choose|m: int| 0 <= m < out@.len() && out@[m] == x;
                            assert(model_read(out@)[m] == (e.connector_idx as int, e.chapter_id@));
                        }
                    }
                    lemma_push_nodup(out@, e, read_key());
                    assert(out@.push(e).drop_last() =~= out@);
                    assert(model_read(out@.push(e)).drop_last() =~= model_read(out@));
                }
                out.push(e);
            },
        }
        i = i + 1;
    }
    proof {
        assert(jv_seq(a@).take(jv_seq(a@).len() as int) =~= jv_seq(a@));
    }
    Some(out)
}

/// Rebuild a store from a parsed preference document.  `Some` exactly
/// when the tree decodes, and then the store is well formed and carries
/// the decoded tables.
pub fn from_json(v: &Json) -> (r: Option<PrefData>)
    ensures
        match r {
            Some(d) => decode_pref(v.jv()) == Some(
                (d.liked_model(), d.views_model(), d.read_model()),
            ) && d.wf(),
            None => decode_pref(v.jv()) is None,
        },
{
    match v {
        Json::Obj(ms) => {
            proof {
                lemma_jv_members(ms@);
            }
            if ms.len() != 3 {
                return None;
            }
            if !str_is(&ms[0].0, "liked") || !str_is(&ms[1].0, "views") || !str_is(
                &ms[2].0,
                "read",
            ) {
                return None;
            }
            let liked = match &ms[0].1 {
                Json::Arr(a) => match parse_liked_arr(a) {
                    Some(x) => x,
                    None => {
                        return None;
                    },
                },
                _ => {
                    return None;
                },
            };
            let views = match &ms[1].1 {
                Json::Arr(a) => match parse_views_arr(a) {
                    Some(x) => x,
                    None => {
                        return None;
                    },
                },
                _ => {
                    return None;
                },
            };
            let read = match &ms[2].1 {
                Json::Arr(a) => match parse_read_arr(a) {
                    Some(x) => x,
                    None => {
                        return None;
                    },
                },
                _ => {
                    return None;
                },
            };
            Some(PrefData { liked, views, read })
        },
        _ => None,
    }
}

impl UserPrefs {
    /// The file text of the current state, ready to be written to the
    /// preference file.
    pub fn save(&self) -> (r: String)
        ensures
            r@ == crate::json::render(
                pref_jv(
                    self.data.liked_model(),
                    self.data.views_model(),
                    self.data.read_model(),
                ),
            ),
    {
        let tree = to_json(&self.data);
        render_json(&tree)
    }

    /// Replace the state with the file's content.  A text the saver
    /// could not have written is rejected and the state kept.
    pub fn load(&mut self, text: &str) -> (r: Result<(), PrefError>)
        ensures
            match r {
                Ok(_) => {
                    &&& crate::json::spec_json(text@) is Some
                    &&& decode_pref(crate::json::spec_json(text@)->0) == Some(
                        (
                            final(self).data.liked_model(),
                            final(self).data.views_model(),
                            final(self).data.read_model(),
                        ),
                    )
                    &&& final(self).data.wf()
                },
                Err(_) => *final(self) == *old(self) && (match crate::json::spec_json(text@) {
                    Some(v) => decode_pref(v) is None,
                    None => true,
                }),
            },
    {
        match parse_json(text) {
            None => Err(PrefError::Malformed),
            Some(tree) => match from_json(&tree) {
                None => Err(PrefError::Malformed),
                Some(d) => {
                    self.data = d;
                    Ok(())
                },
            },
        }
    }
}

proof fn lemma_digits_len_all(l: Seq<char>)
    requires
        forall|i: int| 0 <= i < l.len() ==> is_digit(#[trigger] l[i]),
    ensures
        crate::json::digits_len(l) == l.len(),
    decreases l.len(),
{
    if l.len() > 0 {
        assert forall|i: int| 0 <= i < l.drop_first().len() implies is_digit(
            #[trigger] l.drop_first()[i],
        ) by {
            assert(l.drop_first()[i] == l[i + 1]);
        }
        lemma_digits_len_all(l.drop_first());
    }
}

proof fn lemma_dec_digits_facts(n: nat)
    ensures
        dec_digits(n).len() > 0,
        forall|i: int| 0 <= i < dec_digits(n).len() ==> is_digit(#[trigger] dec_digits(n)[i]),
        dec_val(dec_digits(n)) == n,
    decreases n,
{
    if n < 10 {
        assert(dec_digits(n) =~= seq![crate::json::hex_char(n as int)]);
        assert(is_digit(crate::json::hex_char(n as int)));
        assert(dec_digits(n).drop_last() =~= Seq::<char>::empty());
        assert(crate::json::hex_char(n as int) as int - '0' as int == n);
        assert(dec_val(dec_digits(n).drop_last()) == 0);
        assert(dec_digits(n).last() == crate::json::hex_char(n as int));
        assert(dec_val(dec_digits(n)) == dec_val(dec_digits(n).drop_last()) * 10 + (
        dec_digits(n).last() as int - '0' as int));
    } else {
        lemma_dec_digits_facts(n / 10);
        let d = crate::json::hex_char((n % 10) as int);
        assert(is_digit(d));
        assert(dec_digits(n) == dec_digits(n / 10).push(d));
        assert(dec_digits(n).drop_last() =~= dec_digits(n / 10));
        assert(dec_digits(n).last() == d);
        assert(d as int - '0' as int == n % 10);
        assert(dec_val(dec_digits(n)) == dec_val(dec_digits(n / 10)) * 10 + (n % 10));
        assert(n / 10 * 10 + n % 10 == n);
        assert forall|i: int| 0 <= i < dec_digits(n).len() implies is_digit(
            #[trigger] dec_digits(n)[i],
        ) by {
            if i < dec_digits(n).len() - 1 {
                assert(dec_digits(n)[i] == dec_digits(n / 10)[i]);
            }
        }
    }
}

proof fn lemma_dec_digits_num_ok(n: nat)
    ensures
        is_digit_seq(dec_digits(n)),
        crate::json::num_ok(dec_digits(n)),
        forall|i: int|
            0 <= i < dec_digits(n).len() ==> crate::json::is_num_char(#[trigger] dec_digits(n)[i]),
        dec_val(dec_digits(n)) == n,
{
    lemma_dec_digits_facts(n);
    let l = dec_digits(n);
    lemma_digits_len_all(l);
    assert(!(l[0] == '-'));
    assert(l.skip(l.len() as int).len() == 0);
}

proof fn lemma_wf_liked_item(idx: int, id: Seq<char>)
    requires
        0 <= idx <= u32::MAX,
    ensures
        crate::json::jv_wf(liked_item_jv(idx, id)),
        decode_liked_item(liked_item_jv(idx, id)) == Some((idx, id)),
{
    lemma_dec_digits_num_ok(idx as nat);
    let m0 = Seq::<(Seq<char>, JsonV)>::empty();
    let m1 = m0.push(("connector_idx"@, JsonV::Num(dec_digits(idx as nat))));
    let m2 = m1.push(("manga_id"@, JsonV::Str(id)));
    let ms = seq![
        ("connector_idx"@, JsonV::Num(dec_digits(idx as nat))),
        ("manga_id"@, JsonV::Str(id)),
    ];
    assert(ms =~= m2);
    assert(m2.drop_last() =~= m1);
    assert(m1.drop_last() =~= m0);
    assert(crate::json::jv_wf_members(m0));
    assert(crate::json::jv_wf(m1.last().1));
    assert(crate::json::jv_wf_members(m1));
    assert(crate::json::jv_wf(m2.last().1));
    assert(crate::json::jv_wf_members(m2));
}

proof fn lemma_wf_view_item(idx: int, id: Seq<char>, f: Format)
    requires
        0 <= idx <= u32::MAX,
    ensures
        crate::json::jv_wf(view_item_jv(idx, id, f)),
        decode_view_item(view_item_jv(idx, id, f)) == Some((idx, id, f)),
{
    lemma_dec_digits_num_ok(idx as nat);
    let m0 = Seq::<(Seq<char>, JsonV)>::empty();
    let m1 = m0.push(("connector_idx"@, JsonV::Num(dec_digits(idx as nat))));
    let m2 = m1.push(("manga_id"@, JsonV::Str(id)));
    let m3 = m2.push(("format"@, JsonV::Str(fmt_seq(f))));
    let ms = seq![
        ("connector_idx"@, JsonV::Num(dec_digits(idx as nat))),
        ("manga_id"@, JsonV::Str(id)),
        ("format"@, JsonV::Str(fmt_seq(f))),
    ];
    assert(ms =~= m3);
    assert(m3.drop_last() =~= m2);
    assert(m2.drop_last() =~= m1);
    assert(m1.drop_last() =~= m0);
    assert(crate::json::jv_wf_members(m0));
    assert(crate::json::jv_wf(m1.last().1));
    assert(crate::json::jv_wf_members(m1));
    assert(crate::json::jv_wf(m2.last().1));
    assert(crate::json::jv_wf_members(m2));
    assert(crate::json::jv_wf(m3.last().1));
    assert(crate::json::jv_wf_members(m3));
    reveal_strlit("Long");
    reveal_strlit("Normal");
    assert("Long"@.len() == 4);
    assert("Normal"@.len() == 6);
    assert("Long"@ != "Normal"@);
}

proof fn lemma_wf_read_item(idx: int, id: Seq<char>)
    requires
        0 <= idx <= u32::MAX,
    ensures
        crate::json::jv_wf(read_item_jv(idx, id)),
        decode_read_item(read_item_jv(idx, id)) == Some((idx, id)),
{
    lemma_dec_digits_num_ok(idx as nat);
    let m0 = Seq::<(Seq<char>, JsonV)>::empty();
    let m1 = m0.push(("connector_idx"@, JsonV::Num(dec_digits(idx as nat))));
    let m2 = m1.push(("chapter_id"@, JsonV::Str(id)));
    let ms = seq![
        ("connector_idx"@, JsonV::Num(dec_digits(idx as nat))),
        ("chapter_id"@, JsonV::Str(id)),
    ];
    assert(ms =~= m2);
    assert(m2.drop_last() =~= m1);
    assert(m1.drop_last() =~= m0);
    assert(crate::json::jv_wf_members(m0));
    assert(crate::json::jv_wf(m1.last().1));
    assert(crate::json::jv_wf_members(m1));
    assert(crate::json::jv_wf(m2.last().1));
    assert(crate::json::jv_wf_members(m2));
}

proof fn lemma_liked_seq_round(lm: Seq<(int, Seq<char>)>)
    requires
        forall|i: int| 0 <= i < lm.len() ==> 0 <= (#[trigger] lm[i]).0 <= u32::MAX,
        forall|i: int, j: int| 0 <= i < j < lm.len() ==> lm[i] != lm[j],
    ensures
        crate::json::jv_wf_seq(liked_jv_seq(lm)),
        decode_liked_seq(liked_jv_seq(lm)) == Some(lm),
    decreases lm.len(),
{
    if lm.len() == 0 {
        assert(liked_jv_seq(lm).len() == 0);
        assert(decode_liked_seq(liked_jv_seq(lm)) == Some(Seq::<(int, Seq<char>)>::empty()));
        assert(Seq::<(int, Seq<char>)>::empty() =~= lm);
    } else {
        assert forall|i: int| 0 <= i < lm.drop_last().len() implies 0 <= (
        #[trigger] lm.drop_last()[i]).0 <= u32::MAX by {
            assert(lm.drop_last()[i] == lm[i]);
        }
        assert forall|i: int, j: int| 0 <= i < j < lm.drop_last().len() implies lm.drop_last()[i]
            != lm.drop_last()[j] by {
            assert(lm.drop_last()[i] == lm[i]);
            assert(lm.drop_last()[j] == lm[j]);
        }
        lemma_liked_seq_round(lm.drop_last());
        lemma_wf_liked_item(lm.last().0, lm.last().1);
        let s = liked_jv_seq(lm);
        assert(s.drop_last() =~= liked_jv_seq(lm.drop_last()));
        assert(s.last() == liked_item_jv(lm.last().0, lm.last().1));
        assert((lm.last().0, lm.last().1) == lm.last());
        if lm.drop_last().contains(lm.last()) {
            let i = choose|i: int|
                0 <= i < lm.drop_last().len() && lm.drop_last()[i] == lm.last();
            assert(lm[i] == lm[lm.len() - 1]);
            assert(false);
        }
        assert(lm.drop_last().push(lm.last()) =~= lm);
    }
}

proof fn lemma_views_seq_round(vm: Seq<(int, Seq<char>, Format)>)
    requires
        forall|i: int| 0 <= i < vm.len() ==> 0 <= (#[trigger] vm[i]).0 <= u32::MAX,
        forall|i: int, j: int|
            0 <= i < j < vm.len() ==> ((#[trigger] vm[i]).0, vm[i].1) != ((#[trigger] vm[j]).0,
            vm[j].1),
    ensures
        crate::json::jv_wf_seq(views_jv_seq(vm)),
        decode_views_seq(views_jv_seq(vm)) == Some(vm),
    decreases vm.len(),
{
    if vm.len() == 0 {
        assert(views_jv_seq(vm).len() == 0);
        assert(decode_views_seq(views_jv_seq(vm)) == Some(
            Seq::<(int, Seq<char>, Format)>::empty(),
        ));
        assert(Seq::<(int, Seq<char>, Format)>::empty() =~= vm);
    } else {
        assert forall|i: int| 0 <= i < vm.drop_last().len() implies 0 <= (
        #[trigger] vm.drop_last()[i]).0 <= u32::MAX by {
            assert(vm.drop_last()[i] == vm[i]);
        }
        assert forall|i: int, j: int|
            0 <= i < j < vm.drop_last().len() implies ((#[trigger] vm.drop_last()[i]).0,
        vm.drop_last()[i].1) != ((#[trigger] vm.drop_last()[j]).0, vm.drop_last()[j].1) by {
            assert(vm.drop_last()[i] == vm[i]);
            assert(vm.drop_last()[j] == vm[j]);
        }
        lemma_views_seq_round(vm.drop_last());
        lemma_wf_view_item(vm.last().0, vm.last().1, vm.last().2);
        let s = views_jv_seq(vm);
        assert(s.drop_last() =~= views_jv_seq(vm.drop_last()));
        assert(s.last() == view_item_jv(vm.last().0, vm.last().1, vm.last().2));
        assert((vm.last().0, vm.last().1, vm.last().2) == vm.last());
        if exists|j: int|
            0 <= j < vm.drop_last().len() && ((#[trigger] vm.drop_last()[j]).0,
            vm.drop_last()[j].1) == (vm.last().0, vm.last().1) {
            let j = choose|j: int|
                0 <= j < vm.drop_last().len() && ((#[trigger] vm.drop_last()[j]).0,
                vm.drop_last()[j].1) == (vm.last().0, vm.last().1);
            assert((vm[j].0, vm[j].1) == (vm[vm.len() - 1].0, vm[vm.len() - 1].1));
            assert(false);
        }
        assert(vm.drop_last().push(vm.last()) =~= vm);
    }
}

proof fn lemma_read_seq_round(rm: Seq<(int, Seq<char>)>)
    requires
        forall|i: int| 0 <= i < rm.len() ==> 0 <= (#[trigger] rm[i]).0 <= u32::MAX,
        forall|i: int, j: int| 0 <= i < j < rm.len() ==> rm[i] != rm[j],
    ensures
        crate::json::jv_wf_seq(read_jv_seq(rm)),
        decode_read_seq(read_jv_seq(rm)) == Some(rm),
    decreases rm.len(),
{
    if rm.len() == 0 {
        assert(read_jv_seq(rm).len() == 0);
        assert(decode_read_seq(read_jv_seq(rm)) == Some(Seq::<(int, Seq<char>)>::empty()));
        assert(Seq::<(int, Seq<char>)>::empty() =~= rm);
    } else {
        assert forall|i: int| 0 <= i < rm.drop_last().len() implies 0 <= (
        #[trigger] rm.drop_last()[i]).0 <= u32::MAX by {
            assert(rm.drop_last()[i] == rm[i]);
        }
        assert forall|i: int, j: int| 0 <= i < j < rm.drop_last().len() implies rm.drop_last()[i]
            != rm.drop_last()[j] by {
            assert(rm.drop_last()[i] == rm[i]);
            assert(rm.drop_last()[j] == rm[j]);
        }
        lemma_read_seq_round(rm.drop_last());
        lemma_wf_read_item(rm.last().0, rm.last().1);
        let s = read_jv_seq(rm);
        assert(s.drop_last() =~= read_jv_seq(rm.drop_last()));
        assert(s.last() == read_item_jv(rm.last().0, rm.last().1));
        assert((rm.last().0, rm.last().1) == rm.last());
        if rm.drop_last().contains(rm.last()) {
            let i = choose|i: int|
                0 <= i < rm.drop_last().len() && rm.drop_last()[i] == rm.last();
            assert(rm[i] == rm[rm.len() - 1]);
            assert(false);
        }
        assert(rm.drop_last().push(rm.last()) =~= rm);
    }
}

/// Saving a well-formed store and loading the text back yields a store
/// equal in all three tables: the preference file round-trips.
pub proof fn lemma_save_load_round_trip(d: PrefData)
    requires
        d.wf(),
    ensures
        ({
            let text = crate::json::render(
                pref_jv(d.liked_model(), d.views_model(), d.read_model()),
            );
            &&& crate::json::spec_json(text) is Some
            &&& decode_pref(crate::json::spec_json(text)->0) == Some(
                (d.liked_model(), d.views_model(), d.read_model()),
            )
        }),
{
    let lm = d.liked_model();
    let vm = d.views_model();
    let rm = d.read_model();
    lemma_model_liked(d.liked@);
    lemma_model_views(d.views@);
    lemma_model_read(d.read@);
    crate::assoc::lemma_nodup_by_pairwise(d.liked@, liked_key());
    crate::assoc::lemma_nodup_by_pairwise(d.views@, view_key());
    crate::assoc::lemma_nodup_by_pairwise(d.read@, read_key());
    assert forall|i: int, j: int| 0 <= i < j < lm.len() implies lm[i] != lm[j] by {
        assert(lm[i] == d.liked@[i].key());
        assert(lm[j] == d.liked@[j].key());
        assert(liked_key()(d.liked@[i]) == d.liked@[i].key());
        assert(liked_key()(d.liked@[j]) == d.liked@[j].key());
    }
    assert forall|i: int, j: int|
        0 <= i < j < vm.len() implies ((#[trigger] vm[i]).0, vm[i].1) != ((#[trigger] vm[j]).0,
    vm[j].1) by {
        assert(view_key()(d.views@[i]) == d.views@[i].key());
        assert(view_key()(d.views@[j]) == d.views@[j].key());
        assert(vm[i] == (d.views@[i].connector_idx as int, d.views@[i].manga_id@,
        d.views@[i].format));
        assert(vm[j] == (d.views@[j].connector_idx as int, d.views@[j].manga_id@,
        d.views@[j].format));
    }
    assert forall|i: int, j: int| 0 <= i < j < rm.len() implies rm[i] != rm[j] by {
        assert(rm[i] == d.read@[i].key());
        assert(rm[j] == d.read@[j].key());
        assert(read_key()(d.read@[i]) == d.read@[i].key());
        assert(read_key()(d.read@[j]) == d.read@[j].key());
    }
    assert forall|i: int| 0 <= i < lm.len() implies 0 <= (#[trigger] lm[i]).0 <= u32::MAX by {
        assert(lm[i] == d.liked@[i].key());
    }
    assert forall|i: int| 0 <= i < vm.len() implies 0 <= (#[trigger] vm[i]).0 <= u32::MAX by {
        assert(vm[i] == (d.views@[i].connector_idx as int, d.views@[i].manga_id@,
        d.views@[i].format));
    }
    assert forall|i: int| 0 <= i < rm.len() implies 0 <= (#[trigger] rm[i]).0 <= u32::MAX by {
        assert(rm[i] == d.read@[i].key());
    }
    lemma_liked_seq_round(lm);
    lemma_views_seq_round(vm);
    lemma_read_seq_round(rm);
    let tree = pref_jv(lm, vm, rm);
    let ms = seq![
        ("liked"@, JsonV::Arr(liked_jv_seq(lm))),
        ("views"@, JsonV::Arr(views_jv_seq(vm))),
        ("read"@, JsonV::Arr(read_jv_seq(rm))),
    ];
    let m0 = Seq::<(Seq<char>, JsonV)>::empty();
    let m1 = m0.push(("liked"@, JsonV::Arr(liked_jv_seq(lm))));
    let m2 = m1.push(("views"@, JsonV::Arr(views_jv_seq(vm))));
    let m3 = m2.push(("read"@, JsonV::Arr(read_jv_seq(rm))));
    assert(ms =~= m3);
    assert(m3.drop_last() =~= m2);
    assert(m2.drop_last() =~= m1);
    assert(m1.drop_last() =~= m0);
    assert(crate::json::jv_wf_members(m0));
    assert(crate::json::jv_wf(m1.last().1));
    assert(crate::json::jv_wf_members(m1));
    assert(crate::json::jv_wf(m2.last().1));
    assert(crate::json::jv_wf_members(m2));
    assert(crate::json::jv_wf(m3.last().1));
    assert(crate::json::jv_wf_members(m3));
    assert(crate::json::jv_wf(tree));
    crate::json::lemma_render_round_trip(tree);
    assert(decode_pref(tree) == Some((lm, vm, rm)));
}

fn liked_key_present(out: &Vec<StoredManga>, idx: u32, id: &String) -> (r: bool)
    ensures
        r == model_liked(out@).contains((idx as int, id@)),
{
    proof {
        lemma_model_liked(out@);
    }
    let mut j: usize = 0;
    while j < out.len()
        invariant
            j <= out@.len(),
            model_liked(out@).len() == out@.len(),
            forall|m: int| 0 <= m < out@.len() ==> model_liked(out@)[m] == (#[trigger] out@[m]).key(),
            forall|m: int| 0 <= m < j ==> (#[trigger] out@[m]).key() != (idx as int, id@),
        decreases out@.len() - j,
    {
        let e = &out[j];
        if e.connector_idx == idx && e.manga_id == *id {
            assert(model_liked(out@)[j as int] == (idx as int, id@));
            return true;
        }
        j = j + 1;
    }
    proof {
        if model_liked(out@).contains((idx as int, id@)) {
            let m = choose|m: int|
                0 <= m < model_liked(out@).len() && model_liked(out@)[m] == (idx as int, id@);
            assert(out@[m].key() == (idx as int, id@));
        }
    }
    false
}

fn view_key_present(out: &Vec<ViewEntry>, idx: u32, id: &String) -> (r: bool)
    ensures
        r == exists|j: int|
            0 <= j < model_views(out@).len() && ((#[trigger] model_views(out@)[j]).0,
            model_views(out@)[j].1) == (idx as int, id@),
{
    proof {
        lemma_model_views(out@);
    }
    let mut j: usize = 0;
    while j < out.len()
        invariant
            j <= out@.len(),
            model_views(out@).len() == out@.len(),
            forall|m: int|
                0 <= m < out@.len() ==> model_views(out@)[m] == ((#[trigger] out@[m]).connector_idx as int,
                out@[m].manga_id@, out@[m].format),
            forall|m: int|
                0 <= m < j ==> ((#[trigger] out@[m]).connector_idx as int, out@[m].manga_id@)
                    != (idx as int, id@),
        decreases out@.len() - j,
    {
        let e = &out[j];
        if e.connector_idx == idx && e.manga_id == *id {
            assert((model_views(out@)[j as int].0, model_views(out@)[j as int].1) == (
                idx as int,
                id@,
            ));
            return true;
        }
        j = j + 1;
    }
    proof {
        if exists|j: int|
            0 <= j < model_views(out@).len() && ((#[trigger] model_views(out@)[j]).0,
            model_views(out@)[j].1) == (idx as int, id@) {
            let m = choose|m: int|
                0 <= m < model_views(out@).len() && ((#[trigger] model_views(out@)[m]).0,
                model_views(out@)[m].1) == (idx as int, id@);
            assert(((out@[m]).connector_idx as int, out@[m].manga_id@) == (idx as int, id@));
        }
    }
    false
}

fn read_key_present(out: &Vec<ReadEntry>, idx: u32, id: &String) -> (r: bool)
    ensures
        r == model_read(out@).contains((idx as int, id@)),
{
    proof {
        lemma_model_read(out@);
    }
    let mut j: usize = 0;
    while j < out.len()
        invariant
            j <= out@.len(),
            model_read(out@).len() == out@.len(),
            forall|m: int| 0 <= m < out@.len() ==> model_read(out@)[m] == (#[trigger] out@[m]).key(),
            forall|m: int| 0 <= m < j ==> (#[trigger] out@[m]).key() != (idx as int, id@),
        decreases out@.len() - j,
    {
        let e = &out[j];
        if e.connector_idx == idx && e.chapter_id == *id {
            assert(model_read(out@)[j as int] == (idx as int, id@));
            return true;
        }
        j = j + 1;
    }
    proof {
        if model_read(out@).contains((idx as int, id@)) {
            let m = choose|m: int|
                0 <= m < model_read(out@).len() && model_read(out@)[m] == (idx as int, id@);
            assert(out@[m].key() == (idx as int, id@));
        }
    }
    false
}

} // verus!
