//! A JSON document model with a verified parser and renderer.
//!
//! Both upstream REST responses and the preference file are JSON texts;
//! this module gives the library one tree type for them, a parser from
//! text to trees and a renderer from trees to text, each specified
//! against the spec-level grammar functions below.
//!
//! Numbers are kept as their literal text: the adapters never compute
//! with them, and a literal round-trips exactly.  The accepted number
//! tokens are a slight superset of strict JSON (leading zeros are not
//! rejected).

use vstd::prelude::*;

use crate::text::{char_code, chars_of, string_from_chars};

verus! {

broadcast use vstd::seq::axiom_seq_index_decreases, vstd::seq::axiom_seq_subrange_decreases, vstd::std_specs::vec::axiom_vec_index_decreases;

/// A parsed JSON value.
pub enum Json {
    Null,
    Bool(bool),
    /// A number, held as its literal text.
    Num(String),
    Str(String),
    Arr(Vec<Json>),
    /// Members in document order; duplicate keys are kept as sent.
    Obj(Vec<(String, Json)>),
}

/// The mathematical shape of a JSON value.
pub enum JsonV {
    Null,
    Bool(bool),
    Num(Seq<char>),
    Str(Seq<char>),
    Arr(Seq<JsonV>),
    Obj(Seq<(Seq<char>, JsonV)>),
}

impl Json {
    /// The abstract value this tree represents.
    pub open spec fn jv(self) -> JsonV
        decreases self,
    {
        match self {
            Json::Null => JsonV::Null,
            Json::Bool(b) => JsonV::Bool(b),
            Json::Num(l) => JsonV::Num(l@),
            Json::Str(s) => JsonV::Str(s@),
            Json::Arr(v) => JsonV::Arr(jv_seq(v@)),
            Json::Obj(m) => JsonV::Obj(jv_members(m@)),
        }
    }
}

pub open spec fn jv_seq(s: Seq<Json>) -> Seq<JsonV>
    decreases s,
{
    if s.len() == 0 {
        Seq::empty()
    } else {
        jv_seq(s.drop_last()).push(s.last().jv())
    }
}

pub open spec fn jv_members(s: Seq<(String, Json)>) -> Seq<(Seq<char>, JsonV)>
    decreases s,
{
    if s.len() == 0 {
        Seq::empty()
    } else {
        jv_members(s.drop_last()).push((s.last().0@, s.last().1.jv()))
    }
}

/// The element views, element by element.
pub proof fn lemma_jv_seq(s: Seq<Json>)
    ensures
        jv_seq(s).len() == s.len(),
        forall|i: int| 0 <= i < s.len() ==> jv_seq(s)[i] == s[i].jv(),
    decreases s.len(),
{
    if s.len() > 0 {
        lemma_jv_seq(s.drop_last());
    }
}

/// The member views, member by member.
pub proof fn lemma_jv_members(s: Seq<(String, Json)>)
    ensures
        jv_members(s).len() == s.len(),
        forall|i: int|
            0 <= i < s.len() ==> jv_members(s)[i] == (s[i].0@, s[i].1.jv()),
    decreases s.len(),
{
    if s.len() > 0 {
        lemma_jv_members(s.drop_last());
    }
}

proof fn lemma_jv_seq_prepend(v: Json, rest: Seq<Json>, out: Seq<Json>)
    requires
        out =~= seq![v] + rest,
    ensures
        jv_seq(out) == seq![v.jv()] + jv_seq(rest),
{
    lemma_jv_seq(out);
    lemma_jv_seq(rest);
    assert(jv_seq(out) =~= seq![v.jv()] + jv_seq(rest));
}

proof fn lemma_jv_members_prepend(
    m: (String, Json),
    rest: Seq<(String, Json)>,
    out: Seq<(String, Json)>,
)
    requires
        out =~= seq![m] + rest,
    ensures
        jv_members(out) == seq![(m.0@, m.1.jv())] + jv_members(rest),
{
    lemma_jv_members(out);
    lemma_jv_members(rest);
    assert(jv_members(out) =~= seq![(m.0@, m.1.jv())] + jv_members(rest));
}

pub open spec fn is_ws(c: char) -> bool {
    c == ' ' || c == '\t' || c == '\n' || c == '\r'
}

pub open spec fn is_digit(c: char) -> bool {
    '0' <= c && c <= '9'
}

/// A character that may occur in a number token.
pub open spec fn is_num_char(c: char) -> bool {
    is_digit(c) || c == '-' || c == '+' || c == '.' || c == 'e' || c == 'E'
}

/// The maximal leading run of number characters.
pub open spec fn num_prefix(t: Seq<char>) -> Seq<char>
    decreases t.len(),
{
    if t.len() > 0 && is_num_char(t[0]) {
        seq![t[0]] + num_prefix(t.drop_first())
    } else {
        Seq::empty()
    }
}

/// The length of the leading run of decimal digits.
pub open spec fn digits_len(t: Seq<char>) -> int
    decreases t.len(),
{
    if t.len() > 0 && is_digit(t[0]) {
        1 + digits_len(t.drop_first())
    } else {
        0
    }
}

/// Is `t` a well-formed number literal: an optional minus, digits, an
/// optional fraction, an optional exponent, and nothing more?
pub open spec fn num_ok(t: Seq<char>) -> bool {
    let u = if t.len() > 0 && t[0] == '-' {
        t.drop_first()
    } else {
        t
    };
    let d1 = digits_len(u);
    let v = u.skip(d1);
    let frac_ok = v.len() == 0 || v[0] != '.' || digits_len(v.drop_first()) > 0;
    let w = if v.len() > 0 && v[0] == '.' {
        v.drop_first().skip(digits_len(v.drop_first()))
    } else {
        v
    };
    let exp_ok = if w.len() > 0 && (w[0] == 'e' || w[0] == 'E') {
        let x = w.drop_first();
        let x2 = if x.len() > 0 && (x[0] == '+' || x[0] == '-') {
            x.drop_first()
        } else {
            x
        };
        digits_len(x2) > 0 && x2.skip(digits_len(x2)).len() == 0
    } else {
        w.len() == 0
    };
    d1 > 0 && frac_ok && exp_ok
}

pub open spec fn is_hex(c: char) -> bool {
    is_digit(c) || ('a' <= c && c <= 'f') || ('A' <= c && c <= 'F')
}

/// The value of one hex digit.
pub open spec fn hex_val(c: char) -> int {
    if is_digit(c) {
        c as int - '0' as int
    } else if 'a' <= c && c <= 'f' {
        c as int - 'a' as int + 10
    } else {
        c as int - 'A' as int + 10
    }
}

/// The code named by four hex digits at the front of `t`.
pub open spec fn hex4_val(t: Seq<char>) -> int {
    4096 * hex_val(t[0]) + 256 * hex_val(t[1]) + 16 * hex_val(t[2]) + hex_val(t[3])
}

pub open spec fn hex4_ok(t: Seq<char>) -> bool {
    t.len() >= 4 && is_hex(t[0]) && is_hex(t[1]) && is_hex(t[2]) && is_hex(t[3])
}

/// One escape sequence, starting after the backslash: the character it
/// names and how many characters it spans.  Surrogate pairs span two
/// `\u` escapes; lone surrogates are malformed.
pub open spec fn spec_escape(u: Seq<char>) -> Option<(char, int)> {
    if u.len() == 0 {
        None
    } else if u[0] == '"' {
        Some(('"', 1))
    } else if u[0] == '\\' {
        Some(('\\', 1))
    } else if u[0] == '/' {
        Some(('/', 1))
    } else if u[0] == 'b' {
        Some(('\u{8}', 1))
    } else if u[0] == 'f' {
        Some(('\u{c}', 1))
    } else if u[0] == 'n' {
        Some(('\n', 1))
    } else if u[0] == 'r' {
        Some(('\r', 1))
    } else if u[0] == 't' {
        Some(('\t', 1))
    } else if u[0] == 'u' {
        if hex4_ok(u.drop_first()) {
            let code = hex4_val(u.drop_first());
            if 0xD800 <= code && code < 0xDC00 {
                if u.len() >= 11 && u[5] == '\\' && u[6] == 'u' && hex4_ok(u.skip(7)) {
                    let lo = hex4_val(u.skip(7));
                    if 0xDC00 <= lo && lo < 0xE000 {
                        Some(((0x10000 + (code - 0xD800) * 0x400 + (lo - 0xDC00)) as char, 11))
                    } else {
                        None
                    }
                } else {
                    None
                }
            } else if 0xDC00 <= code && code < 0xE000 {
                None
            } else {
                Some((code as char, 5))
            }
        } else {
            None
        }
    } else {
        None
    }
}

/// The body of a string literal, starting after the opening quote: the
/// decoded content and the rest after the closing quote.
pub open spec fn spec_string_body(t: Seq<char>) -> Option<(Seq<char>, Seq<char>)>
    decreases t.len(),
{
    if t.len() == 0 {
        None
    } else if t[0] == '"' {
        Some((Seq::empty(), t.drop_first()))
    } else if t[0] == '\\' {
        match spec_escape(t.drop_first()) {
            Some((c, n)) => if 1 + n <= t.len() {
                match spec_string_body(t.skip(1 + n)) {
                    Some((s, r)) => Some((seq![c] + s, r)),
                    None => None,
                }
            } else {
                None
            },
            None => None,
        }
    } else {
        match spec_string_body(t.drop_first()) {
            Some((s, r)) => Some((seq![t[0]] + s, r)),
            None => None,
        }
    }
}

/// One JSON value at the front of `t` (leading whitespace allowed): the
/// value and the rest after it.
pub open spec fn spec_value(t: Seq<char>) -> Option<(JsonV, Seq<char>)>
    decreases t.len(), 0int,
{
    if t.len() == 0 {
        None
    } else if is_ws(t[0]) {
        spec_value(t.drop_first())
    } else if t[0] == 'n' {
        if t.len() >= 4 && t[1] == 'u' && t[2] == 'l' && t[3] == 'l' {
            Some((JsonV::Null, t.skip(4)))
        } else {
            None
        }
    } else if t[0] == 't' {
        if t.len() >= 4 && t[1] == 'r' && t[2] == 'u' && t[3] == 'e' {
            Some((JsonV::Bool(true), t.skip(4)))
        } else {
            None
        }
    } else if t[0] == 'f' {
        if t.len() >= 5 && t[1] == 'a' && t[2] == 'l' && t[3] == 's' && t[4] == 'e' {
            Some((JsonV::Bool(false), t.skip(5)))
        } else {
            None
        }
    } else if t[0] == '"' {
        match spec_string_body(t.drop_first()) {
            Some((s, r)) => Some((JsonV::Str(s), r)),
            None => None,
        }
    } else if t[0] == '[' {
        match spec_items(t.drop_first()) {
            Some((vs, r)) => Some((JsonV::Arr(vs), r)),
            None => None,
        }
    } else if t[0] == '{' {
        match spec_members(t.drop_first()) {
            Some((ms, r)) => Some((JsonV::Obj(ms), r)),
            None => None,
        }
    } else if is_num_char(t[0]) && t[0] != '+' && t[0] != '.' && t[0] != 'e' && t[0] != 'E' {
        let l = num_prefix(t);
        if num_ok(l) {
            Some((JsonV::Num(l), t.skip(l.len() as int)))
        } else {
            None
        }
    } else {
        None
    }
}

/// One object member: optional whitespace, a quoted key, then `:` and a
/// value.
pub open spec fn spec_member(t: Seq<char>) -> Option<((Seq<char>, JsonV), Seq<char>)>
    decreases t.len(), 1int,
{
    if t.len() == 0 {
        None
    } else if is_ws(t[0]) {
        spec_member(t.drop_first())
    } else if t[0] == '"' {
        match spec_string_body(t.drop_first()) {
            Some((k, r)) => if r.len() < t.len() {
                match spec_member_val(r) {
                    Some((v, r2)) => Some(((k, v), r2)),
                    None => None,
                }
            } else {
                None
            },
            None => None,
        }
    } else {
        None
    }
}

/// The `:`-and-value half of a member.
pub open spec fn spec_member_val(t: Seq<char>) -> Option<(JsonV, Seq<char>)>
    decreases t.len(), 1int,
{
    if t.len() == 0 {
        None
    } else if is_ws(t[0]) {
        spec_member_val(t.drop_first())
    } else if t[0] == ':' {
        spec_value(t.drop_first())
    } else {
        None
    }
}

/// The items of an array, starting after the `[`: the element list and
/// the rest after the closing `]`.
pub open spec fn spec_items(t: Seq<char>) -> Option<(Seq<JsonV>, Seq<char>)>
    decreases t.len(), 2int,
{
    if t.len() == 0 {
        None
    } else if is_ws(t[0]) {
        spec_items(t.drop_first())
    } else if t[0] == ']' {
        Some((Seq::empty(), t.drop_first()))
    } else {
        match spec_value(t) {
            Some((v, r)) => if r.len() < t.len() {
                match spec_items_rest(r) {
                    Some((vs, r2)) => Some((seq![v] + vs, r2)),
                    None => None,
                }
            } else {
                None
            },
            None => None,
        }
    }
}

/// What follows an array element: `]`, or `,` and more elements.
pub open spec fn spec_items_rest(t: Seq<char>) -> Option<(Seq<JsonV>, Seq<char>)>
    decreases t.len(), 3int,
{
    if t.len() == 0 {
        None
    } else if is_ws(t[0]) {
        spec_items_rest(t.drop_first())
    } else if t[0] == ']' {
        Some((Seq::empty(), t.drop_first()))
    } else if t[0] == ',' {
        match spec_value(t.drop_first()) {
            Some((v, r)) => if r.len() < t.len() {
                match spec_items_rest(r) {
                    Some((vs, r2)) => Some((seq![v] + vs, r2)),
                    None => None,
                }
            } else {
                None
            },
            None => None,
        }
    } else {
        None
    }
}

/// The members of an object, starting after the `{`.
pub open spec fn spec_members(t: Seq<char>) -> Option<(Seq<(Seq<char>, JsonV)>, Seq<char>)>
    decreases t.len(), 2int,
{
    if t.len() == 0 {
        None
    } else if is_ws(t[0]) {
        spec_members(t.drop_first())
    } else if t[0] == '}' {
        Some((Seq::empty(), t.drop_first()))
    } else {
        match spec_member(t) {
            Some((m, r)) => if r.len() < t.len() {
                match spec_members_rest(r) {
                    Some((ms, r2)) => Some((seq![m] + ms, r2)),
                    None => None,
                }
            } else {
                None
            },
            None => None,
        }
    }
}

/// What follows an object member: `}`, or `,` and more members.
pub open spec fn spec_members_rest(t: Seq<char>) -> Option<(Seq<(Seq<char>, JsonV)>, Seq<char>)>
    decreases t.len(), 3int,
{
    if t.len() == 0 {
        None
    } else if is_ws(t[0]) {
        spec_members_rest(t.drop_first())
    } else if t[0] == '}' {
        Some((Seq::empty(), t.drop_first()))
    } else if t[0] == ',' {
        match spec_member(t.drop_first()) {
            Some((m, r)) => if r.len() < t.len() {
                match spec_members_rest(r) {
                    Some((ms, r2)) => Some((seq![m] + ms, r2)),
                    None => None,
                }
            } else {
                None
            },
            None => None,
        }
    } else {
        None
    }
}

/// Does `t` hold only whitespace?
pub open spec fn all_ws(t: Seq<char>) -> bool {
    forall|i: int| 0 <= i < t.len() ==> is_ws(#[trigger] t[i])
}

/// A whole document: one value, with nothing but whitespace around it.
pub open spec fn spec_json(s: Seq<char>) -> Option<JsonV> {
    match spec_value(s) {
        Some((v, r)) => if all_ws(r) {
            Some(v)
        } else {
            None
        },
        None => None,
    }
}

/// The hex digit naming `d`.
pub open spec fn hex_char(d: int) -> char {
    if d == 0 {
        '0'
    } else if d == 1 {
        '1'
    } else if d == 2 {
        '2'
    } else if d == 3 {
        '3'
    } else if d == 4 {
        '4'
    } else if d == 5 {
        '5'
    } else if d == 6 {
        '6'
    } else if d == 7 {
        '7'
    } else if d == 8 {
        '8'
    } else if d == 9 {
        '9'
    } else if d == 10 {
        'a'
    } else if d == 11 {
        'b'
    } else if d == 12 {
        'c'
    } else if d == 13 {
        'd'
    } else if d == 14 {
        'e'
    } else {
        'f'
    }
}

/// The decimal digits of `n`, most significant first.
pub open spec fn dec_digits(n: nat) -> Seq<char>
    decreases n,
{
    if n < 10 {
        seq![hex_char(n as int)]
    } else {
        dec_digits(n / 10).push(hex_char((n % 10) as int))
    }
}

/// A nonempty run of decimal digits.
pub open spec fn is_digit_seq(l: Seq<char>) -> bool {
    l.len() > 0 && forall|i: int| 0 <= i < l.len() ==> is_digit(#[trigger] l[i])
}

/// The number a digit sequence names.
pub open spec fn dec_val(l: Seq<char>) -> int
    decreases l.len(),
{
    if l.len() == 0 {
        0
    } else {
        dec_val(l.drop_last()) * 10 + (l.last() as int - '0' as int)
    }
}

/// How the renderer writes one character of a string: quotes,
/// backslashes and control characters are escaped, everything else is
/// written as itself.
pub open spec fn esc_char(c: char) -> Seq<char> {
    if c == '"' {
        seq!['\\', '"']
    } else if c == '\\' {
        seq!['\\', '\\']
    } else if (c as int) < 32 {
        seq!['\\', 'u', '0', '0', hex_char((c as int) / 16), hex_char((c as int) % 16)]
    } else {
        seq![c]
    }
}

/// A rendered string body.
pub open spec fn escaped(s: Seq<char>) -> Seq<char>
    decreases s.len(),
{
    if s.len() == 0 {
        Seq::empty()
    } else {
        escaped(s.drop_last()) + esc_char(s.last())
    }
}

/// The compact text of a value.
pub open spec fn render(v: JsonV) -> Seq<char>
    decreases v, 0int,
{
    match v {
        JsonV::Null => seq!['n', 'u', 'l', 'l'],
        JsonV::Bool(b) => if b {
            seq!['t', 'r', 'u', 'e']
        } else {
            seq!['f', 'a', 'l', 's', 'e']
        },
        JsonV::Num(l) => l,
        JsonV::Str(s) => seq!['"'] + escaped(s) + seq!['"'],
        JsonV::Arr(vs) => seq!['['] + render_items(vs) + seq![']'],
        JsonV::Obj(ms) => seq!['{'] + render_members(ms) + seq!['}'],
    }
}

/// Array elements, comma-separated.
pub open spec fn render_items(vs: Seq<JsonV>) -> Seq<char>
    decreases vs, 1int,
{
    if vs.len() == 0 {
        Seq::empty()
    } else if vs.len() == 1 {
        render(vs[0])
    } else {
        render_items(vs.drop_last()) + seq![','] + render(vs.last())
    }
}

/// Object members, comma-separated, each a quoted key, a colon and a
/// value.
pub open spec fn render_members(ms: Seq<(Seq<char>, JsonV)>) -> Seq<char>
    decreases ms, 1int,
{
    if ms.len() == 0 {
        Seq::empty()
    } else if ms.len() == 1 {
        seq!['"'] + escaped(ms[0].0) + seq!['"', ':'] + render(ms[0].1)
    } else {
        render_members(ms.drop_last()) + seq![','] + (seq!['"'] + escaped(ms.last().0) + seq![
            '"',
            ':',
        ] + render(ms.last().1))
    }
}

/// A value the renderer can write and the parser will read back: every
/// number literal in it is well formed.
pub open spec fn jv_wf(v: JsonV) -> bool
    decreases v, 0int,
{
    match v {
        JsonV::Null => true,
        JsonV::Bool(_) => true,
        JsonV::Num(l) => num_ok(l) && (forall|i: int|
            0 <= i < l.len() ==> is_num_char(#[trigger] l[i])),
        JsonV::Str(_) => true,
        JsonV::Arr(vs) => jv_wf_seq(vs),
        JsonV::Obj(ms) => jv_wf_members(ms),
    }
}

pub open spec fn jv_wf_seq(vs: Seq<JsonV>) -> bool
    decreases vs, 1int,
{
    if vs.len() == 0 {
        true
    } else {
        jv_wf_seq(vs.drop_last()) && jv_wf(vs.last())
    }
}

pub open spec fn jv_wf_members(ms: Seq<(Seq<char>, JsonV)>) -> bool
    decreases ms, 1int,
{
    if ms.len() == 0 {
        true
    } else {
        jv_wf_members(ms.drop_last()) && jv_wf(ms.last().1)
    }
}

proof fn skip_step(s: Seq<char>, i: int)
    requires
        0 <= i < s.len(),
    ensures
        s.skip(i).drop_first() =~= s.skip(i + 1),
        s.skip(i)[0] == s[i],
        s.skip(i).len() == s.len() - i,
{
}

proof fn skip_add(s: Seq<char>, i: int, n: int)
    requires
        0 <= i,
        0 <= n,
        i + n <= s.len(),
    ensures
        s.skip(i).skip(n) =~= s.skip(i + n),
{
}

/// Relies on `char::from_u32`: `Some` exactly for the valid scalar
/// values (not a surrogate, at most 0x10FFFF), returning the character
/// with that code.
#[verifier::external_body]
fn char_from_code(u: u32) -> (r: Option<char>)
    ensures
        r matches Some(c) ==> c == u as char,
        r is Some <==> (u < 0xD800 || (0xE000 <= u && u <= 0x10FFFF)),
{
    char::from_u32(u)
}

fn ws_char(c: char) -> (r: bool)
    ensures
        r == is_ws(c),
{
    c == ' ' || c == '\t' || c == '\n' || c == '\r'
}

fn digit_char(c: char) -> (r: bool)
    ensures
        r == is_digit(c),
{
    '0' <= c && c <= '9'
}

fn num_char(c: char) -> (r: bool)
    ensures
        r == is_num_char(c),
{
    digit_char(c) || c == '-' || c == '+' || c == '.' || c == 'e' || c == 'E'
}

fn hex_char_ok(c: char) -> (r: bool)
    ensures
        r == is_hex(c),
{
    digit_char(c) || ('a' <= c && c <= 'f') || ('A' <= c && c <= 'F')
}

fn hex_char_val(c: char) -> (r: u32)
    requires
        is_hex(c),
    ensures
        r as int == hex_val(c),
        r <= 15,
{
    if '0' <= c && c <= '9' {
        c as u32 - '0' as u32
    } else if 'a' <= c && c <= 'f' {
        c as u32 - 'a' as u32 + 10
    } else {
        c as u32 - 'A' as u32 + 10
    }
}

fn read_hex4(cs: &Vec<char>, k: usize) -> (r: Option<u32>)
    requires
        k <= cs@.len(),
    ensures
        match r {
            Some(h) => {
                &&& hex4_ok(cs@.skip(k as int))
                &&& h as int == hex4_val(cs@.skip(k as int))
                &&& h <= 0xFFFF
                &&& k + 4 <= cs@.len()
            },
            None => !hex4_ok(cs@.skip(k as int)),
        },
{
    let ghost t = cs@.skip(k as int);
    if cs.len() < 4 || k > cs.len() - 4 {
        assert(t.len() < 4);
        return None;
    }
    assert(t[0] == cs@[k as int] && t[1] == cs@[k + 1] && t[2] == cs@[k + 2] && t[3] == cs@[k
        + 3]);
    let c0 = cs[k];
    let c1 = cs[k + 1];
    let c2 = cs[k + 2];
    let c3 = cs[k + 3];
    if hex_char_ok(c0) && hex_char_ok(c1) && hex_char_ok(c2) && hex_char_ok(c3) {
        Some(
            4096 * hex_char_val(c0) + 256 * hex_char_val(c1) + 16 * hex_char_val(c2)
                + hex_char_val(c3),
        )
    } else {
        None
    }
}

/// One escape sequence of a string literal, starting at `i` (just after
/// the backslash).
fn parse_escape(cs: &Vec<char>, i: usize) -> (r: Option<(char, usize)>)
    requires
        i <= cs@.len(),
    ensures
        match r {
            Some((c, j)) => i < j <= cs@.len() && spec_escape(cs@.skip(i as int)) == Some(
                (c, j - i),
            ),
            None => spec_escape(cs@.skip(i as int)) is None,
        },
{
    let ghost u = cs@.skip(i as int);
    if i == cs.len() {
        return None;
    }
    proof {
        skip_step(cs@, i as int);
    }
    let e = cs[i];
    match e {
        '"' => Some(('"', i + 1)),
        '\\' => Some(('\\', i + 1)),
        '/' => Some(('/', i + 1)),
        'b' => Some(('\u{8}', i + 1)),
        'f' => Some(('\u{c}', i + 1)),
        'n' => Some(('\n', i + 1)),
        'r' => Some(('\r', i + 1)),
        't' => Some(('\t', i + 1)),
        'u' => {
            proof {
                assert(u.drop_first() =~= cs@.skip(i + 1));
            }
            match read_hex4(cs, i + 1) {
                None => None,
                Some(h) => {
                    if 0xD800 <= h && h < 0xDC00 {
                        // high surrogate: a low surrogate must follow
                        if cs.len() >= 11 && i <= cs.len() - 11 && cs[i + 5] == '\\' && cs[i + 6]
                            == 'u' {
                            proof {
                                assert(u.len() >= 11);
                                assert(u[5] == cs@[i + 5] && u[6] == cs@[i + 6]);
                                assert(u.skip(7) =~= cs@.skip(i + 7));
                            }
                            match read_hex4(cs, i + 7) {
                                None => None,
                                Some(lo) => {
                                    if 0xDC00 <= lo && lo < 0xE000 {
                                        let code = 0x10000 + (h - 0xD800) * 0x400 + (lo - 0xDC00);
                                        match char_from_code(code) {
                                            Some(c) => Some((c, i + 11)),
                                            None => {
                                                proof {
                                                    assert(false);
                                                }
                                                None
                                            },
                                        }
                                    } else {
                                        None
                                    }
                                },
                            }
                        } else {
                            proof {
                                if u.len() >= 11 {
                                    assert(u[5] == cs@[i + 5] && u[6] == cs@[i + 6]);
                                }
                            }
                            None
                        }
                    } else if 0xDC00 <= h && h < 0xE000 {
                        None
                    } else {
                        match char_from_code(h) {
                            Some(c) => Some((c, i + 5)),
                            None => {
                                proof {
                                    assert(false);
                                }
                                None
                            },
                        }
                    }
                },
            }
        },
        _ => None,
    }
}

/// The body of a string literal, starting at `i` (just after the
/// opening quote).
fn parse_string_body(cs: &Vec<char>, i: usize) -> (r: Option<(String, usize)>)
    requires
        i <= cs@.len(),
    ensures
        match r {
            Some((s, j)) => i < j <= cs@.len() && spec_string_body(cs@.skip(i as int)) == Some(
                (s@, cs@.skip(j as int)),
            ),
            None => spec_string_body(cs@.skip(i as int)) is None,
        },
{
    let mut acc: Vec<char> = Vec::new();
    let mut k: usize = i;
    loop
        invariant
            i <= k <= cs@.len(),
            spec_string_body(cs@.skip(i as int)) == (match spec_string_body(cs@.skip(k as int)) {
                Some((s, r)) => Some((acc@ + s, r)),
                None => None::<(Seq<char>, Seq<char>)>,
            }),
        decreases cs@.len() - k,
    {
        if k == cs.len() {
            return None;
        }
        proof {
            skip_step(cs@, k as int);
        }
        let c = cs[k];
        if c == '"' {
            let s = string_from_chars(&acc);
            proof {
                assert(acc@ + Seq::<char>::empty() =~= acc@);
            }
            return Some((s, k + 1));
        } else if c == '\\' {
            match parse_escape(cs, k + 1) {
                None => {
                    return None;
                },
                Some((c2, j2)) => {
                    proof {
                        let n = j2 - (k + 1);
                        assert(1 + n <= cs@.skip(k as int).len());
                        skip_add(cs@, k as int, 1 + n);
                        assert(cs@.skip(k as int).skip(1 + n) =~= cs@.skip(j2 as int));
                        match spec_string_body(cs@.skip(j2 as int)) {
                            Some(p) => {
                                assert(acc@ + (seq![c2] + p.0) =~= acc@.push(c2) + p.0);
                            },
                            None => {},
                        }
                    }
                    acc.push(c2);
                    k = j2;
                },
            }
        } else {
            proof {
                match spec_string_body(cs@.skip(k + 1)) {
                    Some(p) => {
                        assert(acc@ + (seq![c] + p.0) =~= acc@.push(c) + p.0);
                    },
                    None => {},
                }
            }
            acc.push(c);
            k = k + 1;
        }
    }
}

/// The length of the run of decimal digits starting at `from`.
pub fn digits_run(cs: &Vec<char>, from: usize) -> (n: usize)
    requires
        from <= cs@.len(),
    ensures
        n as int == digits_len(cs@.skip(from as int)),
        from + n <= cs@.len(),
{
    let mut k: usize = from;
    while k < cs.len() && digit_char(cs[k])
        invariant
            from <= k <= cs@.len(),
            digits_len(cs@.skip(from as int)) == (k - from) + digits_len(cs@.skip(k as int)),
        decreases cs@.len() - k,
    {
        proof {
            skip_step(cs@, k as int);
        }
        k = k + 1;
    }
    proof {
        if k < cs@.len() {
            skip_step(cs@, k as int);
        }
        assert(digits_len(cs@.skip(k as int)) == 0);
    }
    k - from
}

/// Does `lit` hold a well-formed number literal?
#[verifier::rlimit(60)]
fn check_num(lit: &Vec<char>) -> (r: bool)
    ensures
        r == num_ok(lit@),
{
    let ghost t = lit@;
    proof {
        assert(t.skip(0) =~= t);
    }
    let mut pos: usize = 0;
    if lit.len() > 0 && lit[0] == '-' {
        pos = 1;
        proof {
            skip_step(t, 0);
        }
    }
    let ghost u = if t.len() > 0 && t[0] == '-' {
        t.drop_first()
    } else {
        t
    };
    proof {
        assert(u =~= t.skip(pos as int));
    }
    let d1 = digits_run(lit, pos);
    if d1 == 0 {
        return false;
    }
    let vpos = pos + d1;
    let ghost v = u.skip(digits_len(u));
    proof {
        skip_add(t, pos as int, d1 as int);
        assert(v =~= t.skip(vpos as int));
    }
    let mut wpos = vpos;
    if vpos < lit.len() && lit[vpos] == '.' {
        proof {
            skip_step(t, vpos as int);
        }
        let f = digits_run(lit, vpos + 1);
        if f == 0 {
            return false;
        }
        wpos = vpos + 1 + f;
        proof {
            skip_add(t, vpos + 1, f as int);
        }
    }
    let ghost w = if v.len() > 0 && v[0] == '.' {
        v.drop_first().skip(digits_len(v.drop_first()))
    } else {
        v
    };
    proof {
        assert(w =~= t.skip(wpos as int));
    }
    if wpos < lit.len() && (lit[wpos] == 'e' || lit[wpos] == 'E') {
        proof {
            skip_step(t, wpos as int);
        }
        let mut xpos = wpos + 1;
        if xpos < lit.len() && (lit[xpos] == '+' || lit[xpos] == '-') {
            proof {
                skip_step(t, xpos as int);
            }
            xpos = xpos + 1;
        }
        let ghost x = t.skip(wpos + 1);
        let ghost x2 = if x.len() > 0 && (x[0] == '+' || x[0] == '-') {
            x.drop_first()
        } else {
            x
        };
        proof {
            assert(x2 =~= t.skip(xpos as int));
        }
        let g = digits_run(lit, xpos);
        proof {
            skip_add(t, xpos as int, g as int);
        }
        g > 0 && xpos + g == lit.len()
    } else {
        wpos == lit.len()
    }
}

/// One JSON value starting at `i`.
fn parse_value(cs: &Vec<char>, i: usize) -> (r: Option<(Json, usize)>)
    requires
        i <= cs@.len(),
    ensures
        match r {
            Some((v, j)) => i < j <= cs@.len() && spec_value(cs@.skip(i as int)) == Some(
                (v.jv(), cs@.skip(j as int)),
            ),
            None => spec_value(cs@.skip(i as int)) is None,
        },
    decreases cs@.len() - i, 0int,
{
    let ghost t = cs@.skip(i as int);
    if i == cs.len() {
        return None;
    }
    proof {
        skip_step(cs@, i as int);
    }
    let c = cs[i];
    if ws_char(c) {
        parse_value(cs, i + 1)
    } else if c == 'n' {
        proof {
            if t.len() >= 4 {
                assert(t[1] == cs@[i + 1] && t[2] == cs@[i + 2] && t[3] == cs@[i + 3]);
            }
        }
        if cs.len() - i >= 4 && cs[i + 1] == 'u' && cs[i + 2] == 'l' && cs[i + 3] == 'l' {
            proof {
                assert(t.skip(4) =~= cs@.skip(i + 4));
            }
            Some((Json::Null, i + 4))
        } else {
            None
        }
    } else if c == 't' {
        proof {
            if t.len() >= 4 {
                assert(t[1] == cs@[i + 1] && t[2] == cs@[i + 2] && t[3] == cs@[i + 3]);
            }
        }
        if cs.len() - i >= 4 && cs[i + 1] == 'r' && cs[i + 2] == 'u' && cs[i + 3] == 'e' {
            proof {
                assert(t.skip(4) =~= cs@.skip(i + 4));
            }
            Some((Json::Bool(true), i + 4))
        } else {
            None
        }
    } else if c == 'f' {
        proof {
            if t.len() >= 5 {
                assert(t[1] == cs@[i + 1] && t[2] == cs@[i + 2] && t[3] == cs@[i + 3] && t[4]
                    == cs@[i + 4]);
            }
        }
        if cs.len() - i >= 5 && cs[i + 1] == 'a' && cs[i + 2] == 'l' && cs[i + 3] == 's' && cs[i
            + 4] == 'e' {
            proof {
                assert(t.skip(5) =~= cs@.skip(i + 5));
            }
            Some((Json::Bool(false), i + 5))
        } else {
            None
        }
    } else if c == '"' {
        match parse_string_body(cs, i + 1) {
            Some((s, j)) => Some((Json::Str(s), j)),
            None => None,
        }
    } else if c == '[' {
        match parse_items(cs, i + 1) {
            Some((vs, j)) => Some((Json::Arr(vs), j)),
            None => None,
        }
    } else if c == '{' {
        match parse_members(cs, i + 1) {
            Some((ms, j)) => Some((Json::Obj(ms), j)),
            None => None,
        }
    } else if c == '-' || digit_char(c) {
        let (lit, j) = scan_number(cs, i);
        proof {
            assert(lit@.len() > 0);
            skip_add(cs@, i as int, lit@.len() as int);
            assert(t.skip(lit@.len() as int) =~= cs@.skip(j as int));
        }
        if check_num(&lit) {
            let s = string_from_chars(&lit);
            Some((Json::Num(s), j))
        } else {
            None
        }
    } else {
        assert(!(is_num_char(t[0]) && t[0] != '+' && t[0] != '.' && t[0] != 'e' && t[0] != 'E'));
        None
    }
}

/// One object member (key, `:`, value) starting at `i`.
fn parse_member(cs: &Vec<char>, i: usize) -> (r: Option<((String, Json), usize)>)
    requires
        i <= cs@.len(),
    ensures
        match r {
            Some((m, j)) => i < j <= cs@.len() && spec_member(cs@.skip(i as int)) == Some(
                ((m.0@, m.1.jv()), cs@.skip(j as int)),
            ),
            None => spec_member(cs@.skip(i as int)) is None,
        },
    decreases cs@.len() - i, 1int,
{
    let ghost t = cs@.skip(i as int);
    if i == cs.len() {
        return None;
    }
    proof {
        skip_step(cs@, i as int);
    }
    let c = cs[i];
    if ws_char(c) {
        parse_member(cs, i + 1)
    } else if c == '"' {
        match parse_string_body(cs, i + 1) {
            Some((k, j1)) => {
                match parse_member_val(cs, j1) {
                    Some((v, j2)) => Some(((k, v), j2)),
                    None => None,
                }
            },
            None => None,
        }
    } else {
        None
    }
}

/// The `:` and value of a member, starting at `i`.
fn parse_member_val(cs: &Vec<char>, i: usize) -> (r: Option<(Json, usize)>)
    requires
        i <= cs@.len(),
    ensures
        match r {
            Some((v, j)) => i < j <= cs@.len() && spec_member_val(cs@.skip(i as int)) == Some(
                (v.jv(), cs@.skip(j as int)),
            ),
            None => spec_member_val(cs@.skip(i as int)) is None,
        },
    decreases cs@.len() - i, 1int,
{
    if i == cs.len() {
        return None;
    }
    proof {
        skip_step(cs@, i as int);
    }
    let c = cs[i];
    if ws_char(c) {
        parse_member_val(cs, i + 1)
    } else if c == ':' {
        parse_value(cs, i + 1)
    } else {
        None
    }
}

/// The items of an array, starting just after the `[`.
fn parse_items(cs: &Vec<char>, i: usize) -> (r: Option<(Vec<Json>, usize)>)
    requires
        i <= cs@.len(),
    ensures
        match r {
            Some((vs, j)) => i < j <= cs@.len() && spec_items(cs@.skip(i as int)) == Some(
                (jv_seq(vs@), cs@.skip(j as int)),
            ),
            None => spec_items(cs@.skip(i as int)) is None,
        },
    decreases cs@.len() - i, 2int,
{
    if i == cs.len() {
        return None;
    }
    proof {
        skip_step(cs@, i as int);
    }
    let c = cs[i];
    if ws_char(c) {
        parse_items(cs, i + 1)
    } else if c == ']' {
        let vs: Vec<Json> = Vec::new();
        assert(jv_seq(vs@) =~= Seq::<JsonV>::empty());
        Some((vs, i + 1))
    } else {
        match parse_value(cs, i) {
            None => None,
            Some((v, j1)) => {
                match parse_items_rest(cs, j1) {
                    None => None,
                    Some((rest, j2)) => {
                        let mut out: Vec<Json> = Vec::new();
                        out.push(v);
                        let mut rest = rest;
                        let ghost rest0 = rest@;
                        let ghost v0 = out@[0];
                        out.append(&mut rest);
                        proof {
                            assert(out@ =~= seq![v0] + rest0);
                            lemma_jv_seq_prepend(v0, rest0, out@);
                        }
                        Some((out, j2))
                    },
                }
            },
        }
    }
}

/// What follows an array element, starting at `i`.
fn parse_items_rest(cs: &Vec<char>, i: usize) -> (r: Option<(Vec<Json>, usize)>)
    requires
        i <= cs@.len(),
    ensures
        match r {
            Some((vs, j)) => i < j <= cs@.len() && spec_items_rest(cs@.skip(i as int)) == Some(
                (jv_seq(vs@), cs@.skip(j as int)),
            ),
            None => spec_items_rest(cs@.skip(i as int)) is None,
        },
    decreases cs@.len() - i, 3int,
{
    if i == cs.len() {
        return None;
    }
    proof {
        skip_step(cs@, i as int);
    }
    let c = cs[i];
    if ws_char(c) {
        parse_items_rest(cs, i + 1)
    } else if c == ']' {
        let vs: Vec<Json> = Vec::new();
        assert(jv_seq(vs@) =~= Seq::<JsonV>::empty());
        Some((vs, i + 1))
    } else if c == ',' {
        match parse_value(cs, i + 1) {
            None => None,
            Some((v, j1)) => {
                match parse_items_rest(cs, j1) {
                    None => None,
                    Some((rest, j2)) => {
                        let mut out: Vec<Json> = Vec::new();
                        out.push(v);
                        let mut rest = rest;
                        let ghost rest0 = rest@;
                        let ghost v0 = out@[0];
                        out.append(&mut rest);
                        proof {
                            assert(out@ =~= seq![v0] + rest0);
                            lemma_jv_seq_prepend(v0, rest0, out@);
                        }
                        Some((out, j2))
                    },
                }
            },
        }
    } else {
        None
    }
}

/// The members of an object, starting just after the `{`.
fn parse_members(cs: &Vec<char>, i: usize) -> (r: Option<(Vec<(String, Json)>, usize)>)
    requires
        i <= cs@.len(),
    ensures
        match r {
            Some((ms, j)) => i < j <= cs@.len() && spec_members(cs@.skip(i as int)) == Some(
                (jv_members(ms@), cs@.skip(j as int)),
            ),
            None => spec_members(cs@.skip(i as int)) is None,
        },
    decreases cs@.len() - i, 2int,
{
    if i == cs.len() {
        return None;
    }
    proof {
        skip_step(cs@, i as int);
    }
    let c = cs[i];
    if ws_char(c) {
        parse_members(cs, i + 1)
    } else if c == '}' {
        let ms: Vec<(String, Json)> = Vec::new();
        assert(jv_members(ms@) =~= Seq::<(Seq<char>, JsonV)>::empty());
        Some((ms, i + 1))
    } else {
        match parse_member(cs, i) {
            None => None,
            Some((m, j1)) => {
                match parse_members_rest(cs, j1) {
                    None => None,
                    Some((rest, j2)) => {
                        let mut out: Vec<(String, Json)> = Vec::new();
                        out.push(m);
                        let mut rest = rest;
                        let ghost rest0 = rest@;
                        let ghost m0 = out@[0];
                        out.append(&mut rest);
                        proof {
                            assert(out@ =~= seq![m0] + rest0);
                            lemma_jv_members_prepend(m0, rest0, out@);
                        }
                        Some((out, j2))
                    },
                }
            },
        }
    }
}

/// What follows an object member, starting at `i`.
fn parse_members_rest(cs: &Vec<char>, i: usize) -> (r: Option<(Vec<(String, Json)>, usize)>)
    requires
        i <= cs@.len(),
    ensures
        match r {
            Some((ms, j)) => i < j <= cs@.len() && spec_members_rest(cs@.skip(i as int)) == Some(
                (jv_members(ms@), cs@.skip(j as int)),
            ),
            None => spec_members_rest(cs@.skip(i as int)) is None,
        },
    decreases cs@.len() - i, 3int,
{
    if i == cs.len() {
        return None;
    }
    proof {
        skip_step(cs@, i as int);
    }
    let c = cs[i];
    if ws_char(c) {
        parse_members_rest(cs, i + 1)
    } else if c == '}' {
        let ms: Vec<(String, Json)> = Vec::new();
        assert(jv_members(ms@) =~= Seq::<(Seq<char>, JsonV)>::empty());
        Some((ms, i + 1))
    } else if c == ',' {
        match parse_member(cs, i + 1) {
            None => None,
            Some((m, j1)) => {
                match parse_members_rest(cs, j1) {
                    None => None,
                    Some((rest, j2)) => {
                        let mut out: Vec<(String, Json)> = Vec::new();
                        out.push(m);
                        let mut rest = rest;
                        let ghost rest0 = rest@;
                        let ghost m0 = out@[0];
                        out.append(&mut rest);
                        proof {
                            assert(out@ =~= seq![m0] + rest0);
                            lemma_jv_members_prepend(m0, rest0, out@);
                        }
                        Some((out, j2))
                    },
                }
            },
        }
    } else {
        None
    }
}

/// Parse a whole JSON document.  `Some` exactly when the text is one
/// well-formed value surrounded only by whitespace, and then the result
/// represents that value.
pub fn parse_json(s: &str) -> (r: Option<Json>)
    ensures
        match r {
            Some(v) => spec_json(s@) == Some(v.jv()),
            None => spec_json(s@) is None,
        },
{
    let cs = chars_of(s);
    proof {
        assert(cs@.skip(0) =~= s@);
    }
    match parse_value(&cs, 0) {
        None => None,
        Some((v, j)) => {
            let mut k: usize = j;
            while k < cs.len() && ws_char(cs[k])
                invariant
                    j <= k <= cs@.len(),
                    cs@ == s@,
                    forall|m: int| j <= m < k ==> is_ws(#[trigger] cs@[m]),
                decreases cs@.len() - k,
            {
                k = k + 1;
            }
            if k == cs.len() {
                proof {
                    let rest = cs@.skip(j as int);
                    assert forall|m: int| 0 <= m < rest.len() implies is_ws(#[trigger] rest[m]) by {
                        assert(rest[m] == cs@[j + m]);
                    }
                }
                Some(v)
            } else {
                proof {
                    let rest = cs@.skip(j as int);
                    assert(rest[k - j] == cs@[k as int]);
                    assert(!all_ws(rest));
                }
                None
            }
        },
    }
}

/// Nesting depth of a tree, the measure the renderer recurses on.
pub open spec fn jheight(j: Json) -> nat
    decreases j,
{
    match j {
        Json::Null => 0,
        Json::Bool(_) => 0,
        Json::Num(_) => 0,
        Json::Str(_) => 0,
        Json::Arr(v) => 1 + jheight_seq(v@),
        Json::Obj(m) => 1 + jheight_members(m@),
    }
}

pub open spec fn jheight_seq(s: Seq<Json>) -> nat
    decreases s,
{
    if s.len() == 0 {
        0
    } else {
        let h1 = jheight_seq(s.drop_last());
        let h2 = jheight(s.last());
        if h1 >= h2 {
            h1
        } else {
            h2
        }
    }
}

pub open spec fn jheight_members(s: Seq<(String, Json)>) -> nat
    decreases s,
{
    if s.len() == 0 {
        0
    } else {
        let h1 = jheight_members(s.drop_last());
        let h2 = jheight(s.last().1);
        if h1 >= h2 {
            h1
        } else {
            h2
        }
    }
}

proof fn lemma_jheight_seq(s: Seq<Json>)
    ensures
        forall|i: int| 0 <= i < s.len() ==> jheight(#[trigger] s[i]) <= jheight_seq(s),
    decreases s.len(),
{
    if s.len() > 0 {
        lemma_jheight_seq(s.drop_last());
        assert forall|i: int| 0 <= i < s.len() implies jheight(#[trigger] s[i]) <= jheight_seq(s)
            by {
            if i < s.len() - 1 {
                assert(s.drop_last()[i] == s[i]);
            }
        }
    }
}

proof fn lemma_jheight_members(s: Seq<(String, Json)>)
    ensures
        forall|i: int| 0 <= i < s.len() ==> jheight(#[trigger] s[i].1) <= jheight_members(s),
    decreases s.len(),
{
    if s.len() > 0 {
        lemma_jheight_members(s.drop_last());
        assert forall|i: int| 0 <= i < s.len() implies jheight(#[trigger] s[i].1)
            <= jheight_members(s) by {
            if i < s.len() - 1 {
                assert(s.drop_last()[i] == s[i]);
            }
        }
    }
}

pub fn hex_digit(d: u32) -> (r: char)
    requires
        d <= 15,
    ensures
        r == hex_char(d as int),
{
    if d == 0 {
        '0'
    } else if d == 1 {
        '1'
    } else if d == 2 {
        '2'
    } else if d == 3 {
        '3'
    } else if d == 4 {
        '4'
    } else if d == 5 {
        '5'
    } else if d == 6 {
        '6'
    } else if d == 7 {
        '7'
    } else if d == 8 {
        '8'
    } else if d == 9 {
        '9'
    } else if d == 10 {
        'a'
    } else if d == 11 {
        'b'
    } else if d == 12 {
        'c'
    } else if d == 13 {
        'd'
    } else if d == 14 {
        'e'
    } else {
        'f'
    }
}

fn push_chars(out: &mut Vec<char>, cs: &Vec<char>)
    ensures
        final(out)@ == old(out)@ + cs@,
{
    let mut k: usize = 0;
    while k < cs.len()
        invariant
            k <= cs@.len(),
            out@ == old(out)@ + cs@.take(k as int),
        decreases cs@.len() - k,
    {
        proof {
            assert(old(out)@ + cs@.take(k + 1) =~= (old(out)@ + cs@.take(k as int)).push(
                cs@[k as int],
            ));
        }
        out.push(cs[k]);
        k = k + 1;
    }
    proof {
        assert(old(out)@ + cs@.take(cs@.len() as int) =~= old(out)@ + cs@);
    }
}

/// Write the escaped body of a string literal.
fn escape_into(cs: &Vec<char>, out: &mut Vec<char>)
    ensures
        final(out)@ == old(out)@ + escaped(cs@),
{
    let mut k: usize = 0;
    while k < cs.len()
        invariant
            k <= cs@.len(),
            out@ == old(out)@ + escaped(cs@.take(k as int)),
        decreases cs@.len() - k,
    {
        let c = cs[k];
        proof {
            assert(cs@.take(k + 1).drop_last() =~= cs@.take(k as int));
            assert(cs@.take(k + 1).last() == cs@[k as int]);
        }
        let ghost before = out@;
        if c == '"' {
            out.push('\\');
            out.push('"');
        } else if c == '\\' {
            out.push('\\');
            out.push('\\');
        } else if char_code(c) < 32 {
            let code = char_code(c);
            out.push('\\');
            out.push('u');
            out.push('0');
            out.push('0');
            out.push(hex_digit(code / 16));
            out.push(hex_digit(code % 16));
        } else {
            out.push(c);
        }
        proof {
            assert(out@ =~= before + esc_char(cs@[k as int]));
            assert(before + esc_char(cs@[k as int]) =~= old(out)@ + escaped(cs@.take(k + 1)));
        }
        k = k + 1;
    }
    proof {
        assert(cs@.take(cs@.len() as int) =~= cs@);
    }
}

/// Write the compact text of `v`.
fn render_chars(v: &Json, out: &mut Vec<char>)
    ensures
        final(out)@ == old(out)@ + render(v.jv()),
    decreases jheight(*v),
{
    let ghost start = out@;
    match v {
        Json::Null => {
            out.push('n');
            out.push('u');
            out.push('l');
            out.push('l');
            proof {
                assert(out@ =~= start + render(v.jv()));
            }
        },
        Json::Bool(b) => {
            if *b {
                out.push('t');
                out.push('r');
                out.push('u');
                out.push('e');
            } else {
                out.push('f');
                out.push('a');
                out.push('l');
                out.push('s');
                out.push('e');
            }
            proof {
                assert(out@ =~= start + render(v.jv()));
            }
        },
        Json::Num(l) => {
            let cs = chars_of(l.as_str());
            push_chars(out, &cs);
        },
        Json::Str(s) => {
            let cs = chars_of(s.as_str());
            out.push('"');
            escape_into(&cs, out);
            out.push('"');
            proof {
                assert(out@ =~= start + (seq!['"'] + escaped(s@) + seq!['"']));
            }
        },
        Json::Arr(a) => {
            out.push('[');
            let ghost vs = jv_seq(a@);
            proof {
                lemma_jv_seq(a@);
            }
            let mut k: usize = 0;
            while k < a.len()
                invariant
                    *v == Json::Arr(*a),
                    k <= a@.len(),
                    vs == jv_seq(a@),
                    vs.len() == a@.len(),
                    forall|m: int| 0 <= m < a@.len() ==> vs[m] == a@[m].jv(),
                    out@ == start + seq!['['] + render_items(vs.take(k as int)),
                decreases a@.len() - k,
            {
                proof {
                    assert(vs.take(k + 1).drop_last() =~= vs.take(k as int));
                    assert(vs.take(k + 1).last() == vs[k as int]);
                    assert(vs.take(1) =~= seq![vs[0]]);
                }
                let ghost before = out@;
                if k > 0 {
                    out.push(',');
                }
                proof {
                    lemma_jheight_seq(a@);
                    assert(jheight(a@[k as int]) < jheight(*v));
                }
                render_chars(&a[k], out);
                proof {
                    if k == 0 {
                        assert(out@ =~= start + seq!['['] + render_items(vs.take(1)));
                    } else {
                        assert(out@ =~= before + seq![','] + render(vs[k as int]));
                        assert(before + seq![','] + render(vs[k as int]) =~= start + seq!['[']
                            + render_items(vs.take(k + 1)));
                    }
                }
                k = k + 1;
            }
            out.push(']');
            proof {
                assert(vs.take(vs.len() as int) =~= vs);
                assert(out@ =~= start + (seq!['['] + render_items(vs) + seq![']']));
            }
        },
        Json::Obj(m) => {
            out.push('{');
            let ghost ms = jv_members(m@);
            proof {
                lemma_jv_members(m@);
            }
            let mut k: usize = 0;
            while k < m.len()
                invariant
                    *v == Json::Obj(*m),
                    k <= m@.len(),
                    ms == jv_members(m@),
                    ms.len() == m@.len(),
                    forall|j: int| 0 <= j < m@.len() ==> ms[j] == (m@[j].0@, m@[j].1.jv()),
                    out@ == start + seq!['{'] + render_members(ms.take(k as int)),
                decreases m@.len() - k,
            {
                proof {
                    assert(ms.take(k + 1).drop_last() =~= ms.take(k as int));
                    assert(ms.take(k + 1).last() == ms[k as int]);
                    assert(ms.take(1) =~= seq![ms[0]]);
                }
                let ghost before = out@;
                if k > 0 {
                    out.push(',');
                }
                let entry = &m[k];
                let kcs = chars_of(entry.0.as_str());
                out.push('"');
                escape_into(&kcs, out);
                out.push('"');
                out.push(':');
                proof {
                    lemma_jheight_members(m@);
                    assert(jheight(m@[k as int].1) < jheight(*v));
                }
                render_chars(&entry.1, out);
                proof {
                    let piece = seq!['"'] + escaped(ms[k as int].0) + seq!['"', ':'] + render(
                        ms[k as int].1,
                    );
                    if k == 0 {
                        assert(out@ =~= before + piece);
                        assert(before + piece =~= start + seq!['{'] + render_members(ms.take(1)));
                    } else {
                        assert(out@ =~= before + seq![','] + piece);
                        assert(before + seq![','] + piece =~= start + seq!['{'] + render_members(
                            ms.take(k + 1),
                        ));
                    }
                }
                k = k + 1;
            }
            out.push('}');
            proof {
                assert(ms.take(ms.len() as int) =~= ms);
                assert(out@ =~= start + (seq!['{'] + render_members(ms) + seq!['}']));
            }
        },
    }
}

/// The compact JSON text of `v`.
pub fn render_json(v: &Json) -> (r: String)
    ensures
        r@ == render(v.jv()),
{
    let mut out: Vec<char> = Vec::new();
    render_chars(v, &mut out);
    string_from_chars(&out)
}

// ------------------------------------------------------------------
// The renderer and the parser are inverse: parsing a rendered value
// gives the value back.  The lemmas below build that up piecewise.

proof fn lemma_escaped_add(a: Seq<char>, b: Seq<char>)
    ensures
        escaped(a + b) == escaped(a) + escaped(b),
    decreases b.len(),
{
    if b.len() == 0 {
        assert(a + b =~= a);
        assert(escaped(a) + escaped(b) =~= escaped(a));
    } else {
        lemma_escaped_add(a, b.drop_last());
        assert((a + b).drop_last() =~= a + b.drop_last());
        assert((a + b).last() == b.last());
        assert(escaped(a) + (escaped(b.drop_last()) + esc_char(b.last())) =~= (escaped(a)
            + escaped(b.drop_last())) + esc_char(b.last()));
    }
}

proof fn lemma_escaped_first(s: Seq<char>)
    requires
        s.len() > 0,
    ensures
        escaped(s) == esc_char(s[0]) + escaped(s.drop_first()),
{
    assert(s =~= seq![s[0]] + s.drop_first());
    lemma_escaped_add(seq![s[0]], s.drop_first());
    let e = seq![s[0]];
    assert(e.drop_last() =~= Seq::<char>::empty());
    assert(escaped(e) == escaped(e.drop_last()) + esc_char(e.last()));
    assert(escaped(e.drop_last()) =~= Seq::<char>::empty());
    assert(escaped(e) =~= esc_char(s[0]));
}

proof fn lemma_num_prefix_concat(l: Seq<char>, post: Seq<char>)
    requires
        forall|i: int| 0 <= i < l.len() ==> is_num_char(#[trigger] l[i]),
        post.len() > 0 ==> !is_num_char(post[0]),
    ensures
        num_prefix(l + post) == l,
    decreases l.len(),
{
    if l.len() == 0 {
        assert(l + post =~= post);
        assert(num_prefix(l + post) =~= l);
    } else {
        assert((l + post)[0] == l[0]);
        assert((l + post).drop_first() =~= l.drop_first() + post);
        lemma_num_prefix_concat(l.drop_first(), post);
        assert(seq![l[0]] + l.drop_first() =~= l);
    }
}

/// A well-formed number literal starts with a minus or a digit and
/// holds number characters only.
proof fn lemma_num_ok_shape(l: Seq<char>)
    requires
        num_ok(l),
        forall|i: int| 0 <= i < l.len() ==> is_num_char(#[trigger] l[i]),
    ensures
        l.len() > 0,
        l[0] == '-' || is_digit(l[0]),
        !is_ws(l[0]),
        l[0] != ']' && l[0] != '}' && l[0] != ',' && l[0] != '"',
        l[0] != '+' && l[0] != '.' && l[0] != 'e' && l[0] != 'E',
{
    if l.len() > 0 && l[0] == '-' {
    } else {
        assert(digits_len(l) > 0);
        if l.len() == 0 {
            assert(digits_len(l) == 0);
        }
        assert(is_digit(l[0]));
    }
}

/// How a rendered value starts: never with whitespace, a closer, a
/// comma or a quote-closing position that could confuse the grammar.
proof fn lemma_render_starts(v: JsonV)
    requires
        jv_wf(v),
    ensures
        render(v).len() > 0,
        !is_ws(render(v)[0]),
        render(v)[0] != ']' && render(v)[0] != '}' && render(v)[0] != ',',
{
    match v {
        JsonV::Null => {}
        JsonV::Bool(b) => {}
        JsonV::Num(l) => {
            lemma_num_ok_shape(l);
        }
        JsonV::Str(s) => {
            assert(render(v)[0] == '"');
        }
        JsonV::Arr(vs) => {
            assert(render(v)[0] == '[');
        }
        JsonV::Obj(ms) => {
            assert(render(v)[0] == '{');
        }
    }
}

/// The rendered elements after the first, each preceded by a comma.
pub open spec fn render_tail(vs: Seq<JsonV>) -> Seq<char>
    decreases vs.len(),
{
    if vs.len() == 0 {
        Seq::empty()
    } else {
        seq![','] + render(vs[0]) + render_tail(vs.drop_first())
    }
}

proof fn lemma_render_items_front(vs: Seq<JsonV>)
    requires
        vs.len() >= 1,
    ensures
        render_items(vs) == render(vs[0]) + render_tail(vs.drop_first()),
    decreases vs.len(),
{
    if vs.len() == 1 {
        assert(vs.drop_first().len() == 0);
        assert(render(vs[0]) + render_tail(vs.drop_first()) =~= render(vs[0]));
    } else {
        lemma_render_items_front(vs.drop_last());
        assert(vs.drop_last()[0] == vs[0]);
        assert(vs.drop_last().drop_first() =~= vs.drop_first().drop_last());
        // tail of a longer list: the last element joins at the end
        lemma_render_tail_snoc(vs.drop_first());
        assert(vs.drop_first().last() == vs.last());
        assert(render(vs[0]) + (render_tail(vs.drop_first().drop_last()) + seq![','] + render(
            vs.last(),
        )) =~= (render(vs[0]) + render_tail(vs.drop_first().drop_last())) + seq![','] + render(
            vs.last(),
        ));
    }
}

proof fn lemma_render_tail_snoc(vs: Seq<JsonV>)
    requires
        vs.len() >= 1,
    ensures
        render_tail(vs) == render_tail(vs.drop_last()) + seq![','] + render(vs.last()),
    decreases vs.len(),
{
    if vs.len() == 1 {
        assert(render_tail(vs.drop_last()) =~= Seq::<char>::empty());
        assert(vs.drop_first().len() == 0);
        assert(render_tail(vs.drop_first()) == Seq::<char>::empty());
        assert(render_tail(vs) =~= seq![','] + render(vs[0]) + Seq::<char>::empty());
        assert(render_tail(vs.drop_last()) + seq![','] + render(vs.last()) =~= seq![','] + render(
            vs[0],
        ));
    } else {
        lemma_render_tail_snoc(vs.drop_first());
        assert(vs.drop_first().drop_last() =~= vs.drop_last().drop_first());
        assert(vs.drop_last()[0] == vs[0]);
        assert(vs.drop_first().last() == vs.last());
        assert(seq![','] + render(vs[0]) + (render_tail(vs.drop_last().drop_first()) + seq![',']
            + render(vs.last())) =~= (seq![','] + render(vs[0]) + render_tail(
            vs.drop_last().drop_first(),
        )) + seq![','] + render(vs.last()));
    }
}

/// The rendered members after the first, each preceded by a comma.
pub open spec fn render_mtail(ms: Seq<(Seq<char>, JsonV)>) -> Seq<char>
    decreases ms.len(),
{
    if ms.len() == 0 {
        Seq::empty()
    } else {
        seq![','] + (seq!['"'] + escaped(ms[0].0) + seq!['"', ':'] + render(ms[0].1))
            + render_mtail(ms.drop_first())
    }
}

proof fn lemma_render_members_front(ms: Seq<(Seq<char>, JsonV)>)
    requires
        ms.len() >= 1,
    ensures
        render_members(ms) == seq!['"'] + escaped(ms[0].0) + seq!['"', ':'] + render(ms[0].1)
            + render_mtail(ms.drop_first()),
    decreases ms.len(),
{
    if ms.len() == 1 {
        assert(ms.drop_first().len() == 0);
        assert(seq!['"'] + escaped(ms[0].0) + seq!['"', ':'] + render(ms[0].1) + render_mtail(
            ms.drop_first(),
        ) =~= seq!['"'] + escaped(ms[0].0) + seq!['"', ':'] + render(ms[0].1));
    } else {
        lemma_render_members_front(ms.drop_last());
        assert(ms.drop_last()[0] == ms[0]);
        assert(ms.drop_last().drop_first() =~= ms.drop_first().drop_last());
        lemma_render_mtail_snoc(ms.drop_first());
        assert(ms.drop_first().last() == ms.last());
        let head = seq!['"'] + escaped(ms[0].0) + seq!['"', ':'] + render(ms[0].1);
        let lastpiece = seq!['"'] + escaped(ms.last().0) + seq!['"', ':'] + render(ms.last().1);
        assert(head + (render_mtail(ms.drop_first().drop_last()) + seq![','] + lastpiece) =~= (head
            + render_mtail(ms.drop_first().drop_last())) + seq![','] + lastpiece);
    }
}

proof fn lemma_render_mtail_snoc(ms: Seq<(Seq<char>, JsonV)>)
    requires
        ms.len() >= 1,
    ensures
        render_mtail(ms) == render_mtail(ms.drop_last()) + seq![','] + (seq!['"'] + escaped(
            ms.last().0,
        ) + seq!['"', ':'] + render(ms.last().1)),
    decreases ms.len(),
{
    let lastpiece = seq!['"'] + escaped(ms.last().0) + seq!['"', ':'] + render(ms.last().1);
    if ms.len() == 1 {
        assert(render_mtail(ms.drop_last()) =~= Seq::<char>::empty());
        let piece0 = seq!['"'] + escaped(ms[0].0) + seq!['"', ':'] + render(ms[0].1);
        assert(ms.drop_first().len() == 0);
        assert(render_mtail(ms.drop_first()) == Seq::<char>::empty());
        assert(render_mtail(ms) =~= seq![','] + piece0 + Seq::<char>::empty());
        assert(render_mtail(ms.drop_last()) + seq![','] + lastpiece =~= seq![','] + piece0);
    } else {
        lemma_render_mtail_snoc(ms.drop_first());
        assert(ms.drop_first().drop_last() =~= ms.drop_last().drop_first());
        assert(ms.drop_last()[0] == ms[0]);
        assert(ms.drop_first().last() == ms.last());
        let piece0 = seq!['"'] + escaped(ms[0].0) + seq!['"', ':'] + render(ms[0].1);
        assert(seq![','] + piece0 + (render_mtail(ms.drop_last().drop_first()) + seq![',']
            + lastpiece) =~= (seq![','] + piece0 + render_mtail(ms.drop_last().drop_first()))
            + seq![','] + lastpiece);
    }
}

proof fn lemma_hex_char(d: int)
    requires
        0 <= d < 16,
    ensures
        is_hex(hex_char(d)),
        hex_val(hex_char(d)) == d,
{
}

#[verifier::rlimit(100)]
proof fn lemma_string_body_cons(c: char, s1: Seq<char>, post: Seq<char>)
    requires
        spec_string_body(escaped(s1) + seq!['"'] + post) == Some((s1, post)),
    ensures
        spec_string_body(esc_char(c) + (escaped(s1) + seq!['"'] + post)) == Some(
            (seq![c] + s1, post),
        ),
{
    let rest = escaped(s1) + seq!['"'] + post;
    let t = esc_char(c) + rest;
    if c == '"' {
        assert(t[0] == '\\');
        let u = t.drop_first();
        assert(u =~= seq!['"'] + rest);
        assert(u[0] == '"');
        assert(spec_escape(u) == Some(('"', 1int)));
        assert(t.skip(2) =~= rest);
    } else if c == '\\' {
        assert(t[0] == '\\');
        let u = t.drop_first();
        assert(u =~= seq!['\\'] + rest);
        assert(u[0] == '\\');
        assert(spec_escape(u) == Some(('\\', 1int)));
        assert(t.skip(2) =~= rest);
    } else if (c as int) < 32 {
        let code = c as int;
        assert(t[0] == '\\');
        let u = t.drop_first();
        assert(u =~= seq!['u', '0', '0', hex_char(code / 16), hex_char(code % 16)] + rest);
        assert(u[0] == 'u');
        let h = u.drop_first();
        assert(h =~= seq!['0', '0', hex_char(code / 16), hex_char(code % 16)] + rest);
        lemma_hex_char(code / 16);
        lemma_hex_char(code % 16);
        assert(h[0] == '0' && h[1] == '0' && h[2] == hex_char(code / 16) && h[3] == hex_char(
            code % 16,
        ));
        assert(hex4_ok(h));
        assert(hex_val('0') == 0);
        assert(hex4_val(h) == 16 * (code / 16) + code % 16);
        assert(16 * (code / 16) + code % 16 == code);
        assert(hex4_val(h) == code);
        assert(spec_escape(u) == Some((code as char, 5int)));
        assert(code as char == c);
        assert(t.skip(6) =~= rest);
    } else {
        assert(esc_char(c) =~= seq![c]);
        assert(t[0] == c);
        assert(t.drop_first() =~= rest);
    }
}

proof fn lemma_string_body_round(s: Seq<char>, post: Seq<char>)
    ensures
        spec_string_body(escaped(s) + seq!['"'] + post) == Some((s, post)),
    decreases s.len(),
{
    let t = escaped(s) + seq!['"'] + post;
    if s.len() == 0 {
        assert(escaped(s) =~= Seq::<char>::empty());
        assert(t =~= seq!['"'] + post);
        assert(t[0] == '"');
        assert(t.drop_first() =~= post);
        assert(spec_string_body(t) == Some((Seq::<char>::empty(), post)));
        assert(s =~= Seq::<char>::empty());
    } else {
        let c = s[0];
        lemma_escaped_first(s);
        let s1 = s.drop_first();
        lemma_string_body_round(s1, post);
        lemma_string_body_cons(c, s1, post);
        assert(t =~= esc_char(c) + (escaped(s1) + seq!['"'] + post));
        assert(seq![c] + s1 =~= s);
    }
}

proof fn lemma_wf_seq_index(vs: Seq<JsonV>)
    requires
        jv_wf_seq(vs),
    ensures
        forall|i: int| 0 <= i < vs.len() ==> jv_wf(#[trigger] vs[i]),
    decreases vs.len(),
{
    if vs.len() > 0 {
        lemma_wf_seq_index(vs.drop_last());
        assert forall|i: int| 0 <= i < vs.len() implies jv_wf(#[trigger] vs[i]) by {
            if i < vs.len() - 1 {
                assert(vs.drop_last()[i] == vs[i]);
            }
        }
    }
}

proof fn lemma_wf_members_index(ms: Seq<(Seq<char>, JsonV)>)
    requires
        jv_wf_members(ms),
    ensures
        forall|i: int| 0 <= i < ms.len() ==> jv_wf((#[trigger] ms[i]).1),
    decreases ms.len(),
{
    if ms.len() > 0 {
        lemma_wf_members_index(ms.drop_last());
        assert forall|i: int| 0 <= i < ms.len() implies jv_wf((#[trigger] ms[i]).1) by {
            if i < ms.len() - 1 {
                assert(ms.drop_last()[i] == ms[i]);
            }
        }
    }
}

proof fn lemma_wf_seq_drop_first(vs: Seq<JsonV>)
    requires
        jv_wf_seq(vs),
        vs.len() > 0,
    ensures
        jv_wf_seq(vs.drop_first()),
    decreases vs.len(),
{
    if vs.len() > 1 {
        assert(vs.drop_last().len() > 0);
        lemma_wf_seq_drop_first(vs.drop_last());
        assert(vs.drop_first().drop_last() =~= vs.drop_last().drop_first());
        assert(vs.drop_first().last() == vs.last());
    } else {
        assert(vs.drop_first().len() == 0);
    }
}

proof fn lemma_wf_members_drop_first(ms: Seq<(Seq<char>, JsonV)>)
    requires
        jv_wf_members(ms),
        ms.len() > 0,
    ensures
        jv_wf_members(ms.drop_first()),
    decreases ms.len(),
{
    if ms.len() > 1 {
        assert(ms.drop_last().len() > 0);
        lemma_wf_members_drop_first(ms.drop_last());
        assert(ms.drop_first().drop_last() =~= ms.drop_last().drop_first());
        assert(ms.drop_first().last() == ms.last());
    } else {
        assert(ms.drop_first().len() == 0);
    }
}

#[verifier::rlimit(100)]
proof fn lemma_value_round(v: JsonV, post: Seq<char>)
    requires
        jv_wf(v),
        post.len() > 0 ==> !is_num_char(post[0]),
    ensures
        spec_value(render(v) + post) == Some((v, post)),
    decreases v, 0int,
{
    let t = render(v) + post;
    match v {
        JsonV::Null => {
            assert(t =~= seq!['n', 'u', 'l', 'l'] + post);
            assert(t[0] == 'n' && t[1] == 'u' && t[2] == 'l' && t[3] == 'l');
            assert(t.skip(4) =~= post);
        },
        JsonV::Bool(b) => {
            if b {
                assert(t =~= seq!['t', 'r', 'u', 'e'] + post);
                assert(t[0] == 't' && t[1] == 'r' && t[2] == 'u' && t[3] == 'e');
                assert(t.skip(4) =~= post);
            } else {
                assert(t =~= seq!['f', 'a', 'l', 's', 'e'] + post);
                assert(t[0] == 'f' && t[1] == 'a' && t[2] == 'l' && t[3] == 's' && t[4] == 'e');
                assert(t.skip(5) =~= post);
            }
        },
        JsonV::Num(l) => {
            assert(t =~= l + post);
            lemma_num_ok_shape(l);
            assert(t[0] == l[0]);
            lemma_num_prefix_concat(l, post);
            assert(num_prefix(t) == l);
            assert(t.skip(l.len() as int) =~= post);
        },
        JsonV::Str(s) => {
            assert(t =~= seq!['"'] + (escaped(s) + seq!['"'] + post));
            assert(t[0] == '"');
            lemma_string_body_round(s, post);
            assert(t.drop_first() =~= escaped(s) + seq!['"'] + post);
        },
        JsonV::Arr(vs) => {
            assert(t =~= seq!['['] + (render_items(vs) + seq![']'] + post));
            assert(t[0] == '[');
            lemma_items_round(vs, post);
            assert(t.drop_first() =~= render_items(vs) + seq![']'] + post);
        },
        JsonV::Obj(ms) => {
            assert(t =~= seq!['{'] + (render_members(ms) + seq!['}'] + post));
            assert(t[0] == '{');
            lemma_members_round(ms, post);
            assert(t.drop_first() =~= render_members(ms) + seq!['}'] + post);
        },
    }
}

#[verifier::rlimit(100)]
proof fn lemma_items_round(vs: Seq<JsonV>, post: Seq<char>)
    requires
        jv_wf_seq(vs),
    ensures
        spec_items(render_items(vs) + seq![']'] + post) == Some((vs, post)),
    decreases vs, 1int,
{
    let t = render_items(vs) + seq![']'] + post;
    if vs.len() == 0 {
        assert(render_items(vs) =~= Seq::<char>::empty());
        assert(t =~= seq![']'] + post);
        assert(t[0] == ']');
        assert(t.drop_first() =~= post);
        assert(vs =~= Seq::<JsonV>::empty());
    } else {
        lemma_wf_seq_index(vs);
        lemma_render_items_front(vs);
        lemma_render_starts(vs[0]);
        let head = render(vs[0]);
        let tail = render_tail(vs.drop_first());
        let post1 = tail + seq![']'] + post;
        assert(t =~= head + post1);
        assert(t[0] == head[0]);
        if vs.len() == 1 {
            assert(vs.drop_first().len() == 0);
            assert(tail =~= Seq::<char>::empty());
            assert(post1[0] == ']');
        } else {
            assert(vs.drop_first().len() > 0);
            assert(tail[0] == ',');
            assert(post1[0] == ',');
        }
        lemma_value_round(vs[0], post1);
        assert(spec_value(t) == Some((vs[0], post1)));
        assert(post1.len() < t.len());
        lemma_wf_seq_drop_first(vs);
        lemma_items_tail_round(vs.drop_first(), post);
        assert(seq![vs[0]] + vs.drop_first() =~= vs);
    }
}

#[verifier::rlimit(100)]
proof fn lemma_items_tail_round(vs: Seq<JsonV>, post: Seq<char>)
    requires
        jv_wf_seq(vs),
    ensures
        spec_items_rest(render_tail(vs) + seq![']'] + post) == Some((vs, post)),
    decreases vs, 2int,
{
    let t = render_tail(vs) + seq![']'] + post;
    if vs.len() == 0 {
        assert(render_tail(vs) =~= Seq::<char>::empty());
        assert(t =~= seq![']'] + post);
        assert(t[0] == ']');
        assert(t.drop_first() =~= post);
        assert(vs =~= Seq::<JsonV>::empty());
    } else {
        lemma_wf_seq_index(vs);
        lemma_render_starts(vs[0]);
        let head = render(vs[0]);
        let tail1 = render_tail(vs.drop_first());
        let post1 = tail1 + seq![']'] + post;
        assert(t =~= seq![','] + (head + post1));
        assert(t[0] == ',');
        assert(t.drop_first() =~= head + post1);
        if vs.len() == 1 {
            assert(vs.drop_first().len() == 0);
            assert(tail1 =~= Seq::<char>::empty());
            assert(post1[0] == ']');
        } else {
            assert(vs.drop_first().len() > 0);
            assert(tail1[0] == ',');
            assert(post1[0] == ',');
        }
        lemma_value_round(vs[0], post1);
        assert(spec_value(t.drop_first()) == Some((vs[0], post1)));
        assert(post1.len() < t.len());
        lemma_wf_seq_drop_first(vs);
        lemma_items_tail_round(vs.drop_first(), post);
        assert(seq![vs[0]] + vs.drop_first() =~= vs);
    }
}

#[verifier::rlimit(100)]
proof fn lemma_member_piece(k: Seq<char>, val: JsonV, post2: Seq<char>)
    requires
        jv_wf(val),
        post2.len() > 0,
        post2[0] == ',' || post2[0] == '}',
    ensures
        spec_member(seq!['"'] + escaped(k) + seq!['"', ':'] + render(val) + post2) == Some(
            ((k, val), post2),
        ),
    decreases val, 1int,
{
    let t = seq!['"'] + escaped(k) + seq!['"', ':'] + render(val) + post2;
    assert(t[0] == '"');
    let mid = seq![':'] + (render(val) + post2);
    assert(t.drop_first() =~= escaped(k) + seq!['"'] + mid);
    lemma_string_body_round(k, mid);
    assert(spec_string_body(t.drop_first()) == Some((k, mid)));
    assert(mid.len() < t.len());
    assert(mid[0] == ':');
    assert(mid.drop_first() =~= render(val) + post2);
    lemma_value_round(val, post2);
    assert(spec_member_val(mid) == Some((val, post2)));
}

#[verifier::rlimit(100)]
proof fn lemma_members_round(ms: Seq<(Seq<char>, JsonV)>, post: Seq<char>)
    requires
        jv_wf_members(ms),
    ensures
        spec_members(render_members(ms) + seq!['}'] + post) == Some((ms, post)),
    decreases ms, 1int,
{
    let t = render_members(ms) + seq!['}'] + post;
    if ms.len() == 0 {
        assert(render_members(ms) =~= Seq::<char>::empty());
        assert(t =~= seq!['}'] + post);
        assert(t[0] == '}');
        assert(t.drop_first() =~= post);
        assert(ms =~= Seq::<(Seq<char>, JsonV)>::empty());
    } else {
        lemma_wf_members_index(ms);
        lemma_render_members_front(ms);
        let piece = seq!['"'] + escaped(ms[0].0) + seq!['"', ':'] + render(ms[0].1);
        let mtail = render_mtail(ms.drop_first());
        let post1 = mtail + seq!['}'] + post;
        assert(t =~= piece + post1);
        assert(t[0] == '"');
        if ms.len() == 1 {
            assert(ms.drop_first().len() == 0);
            assert(mtail =~= Seq::<char>::empty());
            assert(post1[0] == '}');
        } else {
            assert(ms.drop_first().len() > 0);
            assert(mtail[0] == ',');
            assert(post1[0] == ',');
        }
        lemma_member_piece(ms[0].0, ms[0].1, post1);
        assert(piece + post1 =~= seq!['"'] + escaped(ms[0].0) + seq!['"', ':'] + render(ms[0].1)
            + post1);
        assert(spec_member(t) == Some(((ms[0].0, ms[0].1), post1)));
        assert(post1.len() < t.len());
        lemma_wf_members_drop_first(ms);
        lemma_members_tail_round(ms.drop_first(), post);
        assert(seq![(ms[0].0, ms[0].1)] + ms.drop_first() =~= ms);
    }
}

#[verifier::rlimit(100)]
proof fn lemma_members_tail_round(ms: Seq<(Seq<char>, JsonV)>, post: Seq<char>)
    requires
        jv_wf_members(ms),
    ensures
        spec_members_rest(render_mtail(ms) + seq!['}'] + post) == Some((ms, post)),
    decreases ms, 2int,
{
    let t = render_mtail(ms) + seq!['}'] + post;
    if ms.len() == 0 {
        assert(render_mtail(ms) =~= Seq::<char>::empty());
        assert(t =~= seq!['}'] + post);
        assert(t[0] == '}');
        assert(t.drop_first() =~= post);
        assert(ms =~= Seq::<(Seq<char>, JsonV)>::empty());
    } else {
        lemma_wf_members_index(ms);
        let piece = seq!['"'] + escaped(ms[0].0) + seq!['"', ':'] + render(ms[0].1);
        let mtail1 = render_mtail(ms.drop_first());
        let post1 = mtail1 + seq!['}'] + post;
        assert(t =~= seq![','] + (piece + post1));
        assert(t[0] == ',');
        assert(t.drop_first() =~= piece + post1);
        if ms.len() == 1 {
            assert(ms.drop_first().len() == 0);
            assert(mtail1 =~= Seq::<char>::empty());
            assert(post1[0] == '}');
        } else {
            assert(ms.drop_first().len() > 0);
            assert(mtail1[0] == ',');
            assert(post1[0] == ',');
        }
        lemma_member_piece(ms[0].0, ms[0].1, post1);
        assert(piece + post1 =~= seq!['"'] + escaped(ms[0].0) + seq!['"', ':'] + render(ms[0].1)
            + post1);
        assert(spec_member(t.drop_first()) == Some(((ms[0].0, ms[0].1), post1)));
        assert(post1.len() < t.len());
        lemma_wf_members_drop_first(ms);
        lemma_members_tail_round(ms.drop_first(), post);
        assert(seq![(ms[0].0, ms[0].1)] + ms.drop_first() =~= ms);
    }
}

/// Rendering a well-formed value and parsing the text back gives the
/// value itself: the renderer and the parser are inverse.
pub proof fn lemma_render_round_trip(v: JsonV)
    requires
        jv_wf(v),
    ensures
        spec_json(render(v)) == Some(v),
{
    lemma_value_round(v, Seq::empty());
    assert(render(v) + Seq::<char>::empty() =~= render(v));
    assert(all_ws(Seq::<char>::empty()));
}

/// The maximal run of number characters starting at `i`, as a vector.
fn scan_number(cs: &Vec<char>, i: usize) -> (r: (Vec<char>, usize))
    requires
        i <= cs@.len(),
    ensures
        i <= r.1 <= cs@.len(),
        r.0@ == num_prefix(cs@.skip(i as int)),
        r.0@.len() == r.1 - i,
{
    let mut lit: Vec<char> = Vec::new();
    let mut k: usize = i;
    while k < cs.len() && num_char(cs[k])
        invariant
            i <= k <= cs@.len(),
            lit@.len() == k - i,
            num_prefix(cs@.skip(i as int)) == lit@ + num_prefix(cs@.skip(k as int)),
        decreases cs@.len() - k,
    {
        proof {
            skip_step(cs@, k as int);
            let tk = cs@.skip(k as int);
            assert(num_prefix(tk) == seq![tk[0]] + num_prefix(tk.drop_first()));
            assert(lit@ + (seq![tk[0]] + num_prefix(cs@.skip(k + 1))) =~= lit@.push(cs@[k as int])
                + num_prefix(cs@.skip(k + 1)));
        }
        lit.push(cs[k]);
        k = k + 1;
    }
    proof {
        if k < cs@.len() {
            skip_step(cs@, k as int);
        }
        assert(num_prefix(cs@.skip(k as int)) =~= Seq::<char>::empty());
        assert(lit@ + Seq::<char>::empty() =~= lit@);
    }
    (lit, k)
}

} // verus!
