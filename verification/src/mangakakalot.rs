//! The scraping adapter (MangaKakalot-style site family): pure text
//! logic.
//!
//! Search queries are transliterated to an ASCII slug before they are
//! embedded in a path segment; item identities are relative link paths
//! with `/` swapped for a space so they can travel through one string
//! field.  The page-extraction half of the adapter lives in
//! [`crate::kakalot_pages`].

use vstd::prelude::*;

use crate::text::{chars_of, string_from_chars};
use vstd::string::StringExecFns;

verus! {

/// Folds a Vietnamese vowel or `đ` (either case) to its base Latin
/// letter and an ASCII uppercase letter to lowercase; every other
/// character is kept unchanged.
pub open spec fn fold_char(c: char) -> char {
    match c {
        'à' | 'á' | 'ạ' | 'ả' | 'ã' | 'â' | 'ầ' | 'ấ' | 'ậ' | 'ẩ' | 'ẫ' | 'ă' | 'ằ' | 'ắ' | 'ặ'
            | 'ẳ' | 'ẵ' => 'a',
        'À' | 'Á' | 'Ạ' | 'Ả' | 'Ã' | 'Â' | 'Ầ' | 'Ấ' | 'Ậ' | 'Ẩ' | 'Ẫ' | 'Ă' | 'Ằ' | 'Ắ' | 'Ặ'
            | 'Ẳ' | 'Ẵ' => 'a',
        'è' | 'é' | 'ẹ' | 'ẻ' | 'ẽ' | 'ê' | 'ề' | 'ế' | 'ệ' | 'ể' | 'ễ' => 'e',
        'È' | 'É' | 'Ẹ' | 'Ẻ' | 'Ẽ' | 'Ê' | 'Ề' | 'Ế' | 'Ệ' | 'Ể' | 'Ễ' => 'e',
        'ì' | 'í' | 'ị' | 'ỉ' | 'ĩ' => 'i',
        'Ì' | 'Í' | 'Ị' | 'Ỉ' | 'Ĩ' => 'i',
        'ò' | 'ó' | 'ọ' | 'ỏ' | 'õ' | 'ô' | 'ồ' | 'ố' | 'ộ' | 'ổ' | 'ỗ' | 'ơ' | 'ờ' | 'ớ' | 'ợ'
            | 'ở' | 'ỡ' => 'o',
        'Ò' | 'Ó' | 'Ọ' | 'Ỏ' | 'Õ' | 'Ô' | 'Ồ' | 'Ố' | 'Ộ' | 'Ổ' | 'Ỗ' | 'Ơ' | 'Ờ' | 'Ớ' | 'Ợ'
            | 'Ở' | 'Ỡ' => 'o',
        'ù' | 'ú' | 'ụ' | 'ủ' | 'ũ' | 'ư' | 'ừ' | 'ứ' | 'ự' | 'ử' | 'ữ' => 'u',
        'Ù' | 'Ú' | 'Ụ' | 'Ủ' | 'Ũ' | 'Ư' | 'Ừ' | 'Ứ' | 'Ự' | 'Ử' | 'Ữ' => 'u',
        'ỳ' | 'ý' | 'ỵ' | 'ỷ' | 'ỹ' => 'y',
        'Ỳ' | 'Ý' | 'Ỵ' | 'Ỷ' | 'Ỹ' => 'y',
        'đ' | 'Đ' => 'd',
        'A' => 'a',
        'B' => 'b',
        'C' => 'c',
        'D' => 'd',
        'E' => 'e',
        'F' => 'f',
        'G' => 'g',
        'H' => 'h',
        'I' => 'i',
        'J' => 'j',
        'K' => 'k',
        'L' => 'l',
        'M' => 'm',
        'N' => 'n',
        'O' => 'o',
        'P' => 'p',
        'Q' => 'q',
        'R' => 'r',
        'S' => 's',
        'T' => 't',
        'U' => 'u',
        'V' => 'v',
        'W' => 'w',
        'X' => 'x',
        'Y' => 'y',
        'Z' => 'z',
        _ => c,
    }
}

/// A character that may stand in a slug besides the separator.
pub open spec fn is_slug_char(c: char) -> bool {
    ('a' <= c && c <= 'z') || ('0' <= c && c <= '9')
}

/// The slug before trimming: folded characters are kept, every run of
/// anything else becomes a single `_`, and no leading `_` is written.
pub open spec fn slug_core(s: Seq<char>) -> Seq<char>
    decreases s.len(),
{
    if s.len() == 0 {
        Seq::empty()
    } else {
        let pre = slug_core(s.drop_last());
        let d = fold_char(s.last());
        if is_slug_char(d) {
            pre.push(d)
        } else if pre.len() > 0 && pre.last() != '_' {
            pre.push('_')
        } else {
            pre
        }
    }
}

/// The ASCII slug of a free-text query: lowercased, diacritic-folded,
/// non-alphanumerics collapsed to single underscores, no underscore at
/// either end.
pub open spec fn slug_of(s: Seq<char>) -> Seq<char> {
    let t = slug_core(s);
    if t.len() > 0 && t.last() == '_' {
        t.drop_last()
    } else {
        t
    }
}

fn fold(c: char) -> (r: char)
    ensures
        r == fold_char(c),
{
    match c {
        'à' | 'á' | 'ạ' | 'ả' | 'ã' | 'â' | 'ầ' | 'ấ' | 'ậ' | 'ẩ' | 'ẫ' | 'ă' | 'ằ' | 'ắ' | 'ặ'
            | 'ẳ' | 'ẵ' => 'a',
        'À' | 'Á' | 'Ạ' | 'Ả' | 'Ã' | 'Â' | 'Ầ' | 'Ấ' | 'Ậ' | 'Ẩ' | 'Ẫ' | 'Ă' | 'Ằ' | 'Ắ' | 'Ặ'
            | 'Ẳ' | 'Ẵ' => 'a',
        'è' | 'é' | 'ẹ' | 'ẻ' | 'ẽ' | 'ê' | 'ề' | 'ế' | 'ệ' | 'ể' | 'ễ' => 'e',
        'È' | 'É' | 'Ẹ' | 'Ẻ' | 'Ẽ' | 'Ê' | 'Ề' | 'Ế' | 'Ệ' | 'Ể' | 'Ễ' => 'e',
        'ì' | 'í' | 'ị' | 'ỉ' | 'ĩ' => 'i',
        'Ì' | 'Í' | 'Ị' | 'Ỉ' | 'Ĩ' => 'i',
        'ò' | 'ó' | 'ọ' | 'ỏ' | 'õ' | 'ô' | 'ồ' | 'ố' | 'ộ' | 'ổ' | 'ỗ' | 'ơ' | 'ờ' | 'ớ' | 'ợ'
            | 'ở' | 'ỡ' => 'o',
        'Ò' | 'Ó' | 'Ọ' | 'Ỏ' | 'Õ' | 'Ô' | 'Ồ' | 'Ố' | 'Ộ' | 'Ổ' | 'Ỗ' | 'Ơ' | 'Ờ' | 'Ớ' | 'Ợ'
            | 'Ở' | 'Ỡ' => 'o',
        'ù' | 'ú' | 'ụ' | 'ủ' | 'ũ' | 'ư' | 'ừ' | 'ứ' | 'ự' | 'ử' | 'ữ' => 'u',
        'Ù' | 'Ú' | 'Ụ' | 'Ủ' | 'Ũ' | 'Ư' | 'Ừ' | 'Ứ' | 'Ự' | 'Ử' | 'Ữ' => 'u',
        'ỳ' | 'ý' | 'ỵ' | 'ỷ' | 'ỹ' => 'y',
        'Ỳ' | 'Ý' | 'Ỵ' | 'Ỷ' | 'Ỹ' => 'y',
        'đ' | 'Đ' => 'd',
        'A' => 'a',
        'B' => 'b',
        'C' => 'c',
        'D' => 'd',
        'E' => 'e',
        'F' => 'f',
        'G' => 'g',
        'H' => 'h',
        'I' => 'i',
        'J' => 'j',
        'K' => 'k',
        'L' => 'l',
        'M' => 'm',
        'N' => 'n',
        'O' => 'o',
        'P' => 'p',
        'Q' => 'q',
        'R' => 'r',
        'S' => 's',
        'T' => 't',
        'U' => 'u',
        'V' => 'v',
        'W' => 'w',
        'X' => 'x',
        'Y' => 'y',
        'Z' => 'z',
        _ => c,
    }
}

/// Transliterate a free-text alias to the ASCII slug embedded in the
/// site's search path.
pub fn change_alias(alias: &str) -> (r: String)
    ensures
        r@ == slug_of(alias@),
{
    let cs = chars_of(alias);
    let mut out: Vec<char> = Vec::new();
    let mut i: usize = 0;
    while i < cs.len()
        invariant
            i <= cs@.len(),
            cs@ == alias@,
            out@ == slug_core(alias@.take(i as int)),
        decreases cs@.len() - i,
    {
        proof {
            assert(alias@.take(i + 1).drop_last() =~= alias@.take(i as int));
            assert(alias@.take(i + 1).last() == alias@[i as int]);
        }
        let d = fold(cs[i]);
        if ('a' <= d && d <= 'z') || ('0' <= d && d <= '9') {
            out.push(d);
        } else if out.len() > 0 && out[out.len() - 1] != '_' {
            out.push('_');
        }
        i += 1;
    }
    proof {
        assert(alias@.take(alias@.len() as int) =~= alias@);
    }
    if out.len() > 0 && out[out.len() - 1] == '_' {
        out.pop();
    }
    string_from_chars(&out)
}

/// The shape every slug has: only lowercase ASCII letters, digits and
/// underscores, never two underscores in a row, and none at either end.
pub open spec fn slug_shaped(t: Seq<char>) -> bool {
    &&& forall|i: int| 0 <= i < t.len() ==> is_slug_char(#[trigger] t[i]) || t[i] == '_'
    &&& forall|i: int| 0 < i < t.len() ==> !(t[i - 1] == '_' && #[trigger] t[i] == '_')
    &&& t.len() > 0 ==> t[0] != '_' && t[t.len() - 1] != '_'
}

proof fn lemma_slug_core_shape(s: Seq<char>)
    ensures
        forall|i: int|
            0 <= i < slug_core(s).len() ==> is_slug_char(#[trigger] slug_core(s)[i])
                || slug_core(s)[i] == '_',
        forall|i: int|
            0 < i < slug_core(s).len() ==> !(slug_core(s)[i - 1] == '_' && #[trigger] slug_core(
                s,
            )[i] == '_'),
        slug_core(s).len() > 0 ==> slug_core(s)[0] != '_',
    decreases s.len(),
{
    if s.len() > 0 {
        lemma_slug_core_shape(s.drop_last());
    }
}

/// Every alias slug is lowercase, diacritic-folded ASCII in which runs
/// of other characters appear as single separating underscores, with no
/// underscore leading or trailing.
pub proof fn lemma_slug_shape(s: Seq<char>)
    ensures
        slug_shaped(slug_of(s)),
{
    lemma_slug_core_shape(s);
    let t = slug_core(s);
    if t.len() > 0 && t.last() == '_' {
        let u = t.drop_last();
        assert forall|i: int| 0 <= i < u.len() implies is_slug_char(#[trigger] u[i]) || u[i] == '_'
            by {
            assert(u[i] == t[i]);
        }
        if u.len() > 0 {
            assert(u[u.len() - 1] == t[t.len() - 2]);
            assert(!(t[t.len() - 2] == '_' && t[t.len() - 1] == '_'));
        }
    }
}

/// The id of a scraped item is its relative link path with every `/`
/// replaced by a space.
pub open spec fn encode_char(c: char) -> char {
    if c == '/' {
        ' '
    } else {
        c
    }
}

pub open spec fn decode_char(c: char) -> char {
    if c == ' ' {
        '/'
    } else {
        c
    }
}

pub open spec fn spec_encode_id(s: Seq<char>) -> Seq<char> {
    s.map_values(|c: char| encode_char(c))
}

pub open spec fn spec_decode_id(s: Seq<char>) -> Seq<char> {
    s.map_values(|c: char| decode_char(c))
}

/// Turn a relative link path into an adapter id.
pub fn encode_manga_id(path: &str) -> (r: String)
    ensures
        r@ == spec_encode_id(path@),
{
    let cs = chars_of(path);
    let mut out: Vec<char> = Vec::new();
    let mut i: usize = 0;
    while i < cs.len()
        invariant
            i <= cs@.len(),
            cs@ == path@,
            out@ =~= spec_encode_id(path@.take(i as int)),
        decreases cs@.len() - i,
    {
        let c = cs[i];
        out.push(if c == '/' {
            ' '
        } else {
            c
        });
        proof {
            assert(out@ =~= spec_encode_id(path@.take(i + 1)));
        }
        i += 1;
    }
    proof {
        assert(path@.take(path@.len() as int) =~= path@);
    }
    string_from_chars(&out)
}

/// Turn an adapter id back into the request path it encodes.
pub fn decode_manga_id(id: &str) -> (r: String)
    ensures
        r@ == spec_decode_id(id@),
{
    let cs = chars_of(id);
    let mut out: Vec<char> = Vec::new();
    let mut i: usize = 0;
    while i < cs.len()
        invariant
            i <= cs@.len(),
            cs@ == id@,
            out@ =~= spec_decode_id(id@.take(i as int)),
        decreases cs@.len() - i,
    {
        let c = cs[i];
        out.push(if c == ' ' {
            '/'
        } else {
            c
        });
        proof {
            assert(out@ =~= spec_decode_id(id@.take(i + 1)));
        }
        i += 1;
    }
    proof {
        assert(id@.take(id@.len() as int) =~= id@);
    }
    string_from_chars(&out)
}

/// On paths that hold no space (as relative link paths do), encoding
/// then decoding gives the path back: the id assignment is one to one.
pub proof fn lemma_id_round_trip(path: Seq<char>)
    requires
        !path.contains(' '),
    ensures
        spec_decode_id(spec_encode_id(path)) == path,
{
    assert forall|i: int| 0 <= i < path.len() implies spec_decode_id(spec_encode_id(path))[i]
        == path[i] by {
        if path[i] == ' ' {
            assert(path.contains(' '));
        }
    }
    assert(spec_decode_id(spec_encode_id(path)) =~= path);
}

/// The other direction: an id that holds no `/` decodes and re-encodes
/// to itself.
pub proof fn lemma_id_round_trip_back(id: Seq<char>)
    requires
        !id.contains('/'),
    ensures
        spec_encode_id(spec_decode_id(id)) == id,
{
    assert forall|i: int| 0 <= i < id.len() implies spec_encode_id(spec_decode_id(id))[i] == id[i]
        by {
        if id[i] == '/' {
            assert(id.contains('/'));
        }
    }
    assert(spec_encode_id(spec_decode_id(id)) =~= id);
}

/// The scraping adapter.  It carries no state of its own; the network
/// client that fetches its pages lives with the caller.
pub struct MangaKakalot;

impl MangaKakalot {
    pub fn new() -> (r: MangaKakalot) {
        MangaKakalot
    }

    /// Stable human-readable identifier of this adapter.
    pub fn name(&self) -> (r: &'static str)
        ensures
            r@ == "MangaKakalot"@,
    {
        "MangaKakalot"
    }

    /// Base URL used for id-to-request resolution.
    pub fn url(&self) -> (r: &'static str)
        ensures
            r@ == "https://mangakakalot.com"@,
    {
        "https://mangakakalot.com"
    }

    /// The page requested for a search: the browse-all listing for an
    /// empty query, the slug-keyed search page otherwise.
    pub fn search_url(&self, query: &str) -> (r: String)
        ensures
            query@.len() == 0 ==> r@ == "https://mangakakalot.com/manga_list"@,
            query@.len() > 0 ==> r@ == "https://mangakakalot.com/search/story/"@ + slug_of(query@),
    {
        if query.is_empty() {
            let mut u = String::new();
            u.append("https://mangakakalot.com/manga_list");
            u
        } else {
            let mut u = String::new();
            u.append("https://mangakakalot.com/search/story/");
            let s = change_alias(query);
            u.append(s.as_str());
            u
        }
    }

    /// The URL requested for a manga or chapter id: the decoded link path.
    pub fn request_url(&self, id: &str) -> (r: String)
        ensures
            r@ == spec_decode_id(id@),
    {
        decode_manga_id(id)
    }
}

} // verus!
