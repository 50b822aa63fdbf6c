//! The kernel's JSON data model and its canonical encoding.
//!
//! States are JSON documents. The canonical encoding (minimal whitespace,
//! object key order preserved, number literals preserved verbatim) is part of
//! the store's public contract: the content address of a state is the SHA-256
//! of these bytes.

use vstd::prelude::*;
use crate::trusted::push_char;
use vstd::string::StringExecFns;
use vstd::string::StrSliceExecFns;

verus! {

broadcast use vstd::std_specs::vec::group_vec_axioms, vstd::seq::group_seq_axioms;

/// A JSON document. Numbers are carried as their literal text, so a state's
/// content address is sensitive only to the producer's spelling of the
/// number, never to any re-formatting by the kernel.
pub enum Json {
    Null,
    Bool(bool),
    /// A JSON number literal, e.g. `42` or `-1.5e3`, kept verbatim.
    Num(String),
    Str(String),
    Arr(Vec<Json>),
    Obj(Vec<(String, Json)>),
}

/// The mathematical model of a JSON document.
pub enum JsonV {
    Null,
    Bool(bool),
    Num(Seq<char>),
    Str(Seq<char>),
    Arr(Seq<JsonV>),
    Obj(Seq<(Seq<char>, JsonV)>),
}

impl Json {
    pub open spec fn deep_view(&self) -> JsonV
        decreases self,
    {
        match self {
            Json::Null => JsonV::Null,
            Json::Bool(b) => JsonV::Bool(*b),
            Json::Num(s) => JsonV::Num(s@),
            Json::Str(s) => JsonV::Str(s@),
            Json::Arr(items) => JsonV::Arr(
                Seq::new(
                    items@.len(),
                    |i: int|
                        if 0 <= i < items@.len() {
                            items@[i].deep_view()
                        } else {
                            JsonV::Null
                        },
                ),
            ),
            Json::Obj(fields) => JsonV::Obj(
                Seq::new(
                    fields@.len(),
                    |i: int|
                        if 0 <= i < fields@.len() {
                            (fields@[i].0@, fields@[i].1.deep_view())
                        } else {
                            (Seq::empty(), JsonV::Null)
                        },
                ),
            ),
        }
    }
}

/// The lowercase hexadecimal digit for a value below 16.
pub open spec fn hex_digit(n: u8) -> char {
    if n < 10 {
        (n + 48) as char
    } else {
        (n + 87) as char
    }
}

/// The canonical encoding of one character inside a JSON string literal:
/// quote and backslash are escaped, control characters become `\u00XX`,
/// everything else stands verbatim.
pub open spec fn canon_escape_char(c: char) -> Seq<char> {
    if c == '"' {
        seq!['\\', '"']
    } else if c == '\\' {
        seq!['\\', '\\']
    } else if (c as u32) < 32 {
        seq!['\\', 'u', '0', '0', hex_digit((c as u32 / 16) as u8), hex_digit((c as u32 % 16) as u8)]
    } else {
        seq![c]
    }
}

/// The canonical encoding of the first `i` characters of a JSON string
/// literal body.
pub open spec fn canon_escape_upto(s: Seq<char>, i: int) -> Seq<char>
    decreases i,
{
    if i <= 0 || i > s.len() {
        Seq::empty()
    } else {
        canon_escape_upto(s, i - 1) + canon_escape_char(s[i - 1])
    }
}

/// The canonical encoding of a JSON string literal body.
pub open spec fn canon_escape(s: Seq<char>) -> Seq<char> {
    canon_escape_upto(s, s.len() as int)
}

/// The canonical encoding of a JSON document.
pub open spec fn canon_of(v: JsonV) -> Seq<char>
    decreases v, 0int,
{
    match v {
        JsonV::Null => "null"@,
        JsonV::Bool(b) => if b { "true"@ } else { "false"@ },
        JsonV::Num(s) => s,
        JsonV::Str(s) => seq!['"'] + canon_escape(s) + seq!['"'],
        JsonV::Arr(items) => seq!['['] + canon_items_upto(items, items.len() as int) + seq![']'],
        JsonV::Obj(fields) => seq!['{'] + canon_fields_upto(fields, fields.len() as int) + seq!['}'],
    }
}

/// The comma-separated canonical encodings of the first `i` array elements.
pub open spec fn canon_items_upto(items: Seq<JsonV>, i: int) -> Seq<char>
    decreases items, i,
{
    if i <= 0 || i > items.len() {
        Seq::empty()
    } else if i == 1 {
        canon_of(items[0])
    } else {
        canon_items_upto(items, i - 1) + seq![','] + canon_of(items[i - 1])
    }
}

/// The comma-separated canonical encodings (`"key":value`) of the first `i`
/// object members.
pub open spec fn canon_fields_upto(fields: Seq<(Seq<char>, JsonV)>, i: int) -> Seq<char>
    decreases fields, i,
{
    if i <= 0 || i > fields.len() {
        Seq::empty()
    } else if i == 1 {
        canon_field(fields[0])
    } else {
        canon_fields_upto(fields, i - 1) + seq![','] + canon_field(fields[i - 1])
    }
}

/// The canonical encoding of one object member: `"key":value`.
pub open spec fn canon_field(field: (Seq<char>, JsonV)) -> Seq<char>
    decreases field.1, 1int,
{
    seq!['"'] + canon_escape(field.0) + seq!['"'] + seq![':'] + canon_of(field.1)
}

/// The lowercase hexadecimal digit for a value below 16.
fn hex_digit_char(n: u8) -> (c: char)
    requires
        n < 16,
    ensures
        c == hex_digit(n),
{
    if n < 10 {
        (n + 48) as char
    } else {
        (n + 87) as char
    }
}

/// Appends the canonical escape of the characters of `s` to `out`.
#[verifier::loop_isolation(false)]
fn escape_into(s: &str, out: &mut String)
    ensures
        final(out)@ == old(out)@ + canon_escape(s@),
{
    let n = s.unicode_len();
    let mut i: usize = 0;
    while i < n
        invariant
            n == s@.len(),
            i <= n,
            out@ == old(out)@ + canon_escape_upto(s@, i as int),
        decreases n - i,
    {
        let c = s.get_char(i);
        if c == '"' {
            push_char(out, '\\');
            push_char(out, '"');
        } else if c == '\\' {
            push_char(out, '\\');
            push_char(out, '\\');
        } else if (c as u32) < 32 {
            push_char(out, '\\');
            push_char(out, 'u');
            push_char(out, '0');
            push_char(out, '0');
            push_char(out, hex_digit_char((c as u32 / 16) as u8));
            push_char(out, hex_digit_char((c as u32 % 16) as u8));
        } else {
            push_char(out, c);
        }
        i = i + 1;
        assert(out@ =~= old(out)@ + canon_escape_upto(s@, i as int));
    }
}

/// Appends the canonical encoding of `v` to `out`.
#[verifier::loop_isolation(false)]
pub fn encode_into(v: &Json, out: &mut String)
    ensures
        final(out)@ == old(out)@ + canon_of(v.deep_view()),
    decreases v,
{
    match v {
        Json::Null => {
            out.append("null");
        },
        Json::Bool(b) => {
            if *b {
                out.append("true");
            } else {
                out.append("false");
            }
        },
        Json::Num(s) => {
            out.append(s.as_str());
        },
        Json::Str(s) => {
            push_char(out, '"');
            escape_into(s.as_str(), out);
            push_char(out, '"');
        },
        Json::Arr(items) => {
            push_char(out, '[');
            let ghost model = v.deep_view()->Arr_0;
            assert(model.len() == items@.len());
            let n = items.len();
            let mut i: usize = 0;
            while i < n
                invariant
                    n == items@.len(),
                    model.len() == items@.len(),
                    forall|k: int| 0 <= k < n ==> model[k] == items@[k].deep_view(),
                    i <= n,
                    out@ == old(out)@ + seq!['['] + canon_items_upto(model, i as int),
                decreases n - i,
            {
                if i > 0 {
                    push_char(out, ',');
                }
                encode_into(&items[i], out);
                i = i + 1;
                assert(out@ =~= old(out)@ + seq!['['] + canon_items_upto(model, i as int));
            }
            push_char(out, ']');
            assert(out@ =~= old(out)@ + canon_of(v.deep_view()));
        },
        Json::Obj(fields) => {
            push_char(out, '{');
            let ghost model = v.deep_view()->Obj_0;
            assert(model.len() == fields@.len());
            let n = fields.len();
            let mut i: usize = 0;
            while i < n
                invariant
                    n == fields@.len(),
                    model.len() == fields@.len(),
                    forall|k: int| 0 <= k < n ==> model[k] == (fields@[k].0@, fields@[k].1.deep_view()),
                    i <= n,
                    out@ == old(out)@ + seq!['{'] + canon_fields_upto(model, i as int),
                decreases n - i,
            {
                if i > 0 {
                    push_char(out, ',');
                }
                push_char(out, '"');
                escape_into(fields[i].0.as_str(), out);
                push_char(out, '"');
                push_char(out, ':');
                encode_into(&fields[i].1, out);
                assert(model[i as int] == (fields@[i as int].0@, fields@[i as int].1.deep_view()));
                assert(canon_field(model[i as int]) =~= seq!['"'] + canon_escape(model[i as int].0)
                    + seq!['"'] + seq![':'] + canon_of(model[i as int].1));
                i = i + 1;
                assert(out@ =~= old(out)@ + seq!['{'] + canon_fields_upto(model, i as int));
            }
            push_char(out, '}');
            assert(out@ =~= old(out)@ + canon_of(v.deep_view()));
        },
    }
}

/// The canonical encoding of `v`: minimal whitespace, object member order
/// preserved, number literals verbatim.
pub fn encode_json(v: &Json) -> (r: String)
    ensures
        r@ == canon_of(v.deep_view()),
{
    let mut out = String::new();
    encode_into(v, &mut out);
    out
}

/// The decimal rendering of a natural number, most significant digit first,
/// without leading zeroes.
pub open spec fn dec_of(n: nat) -> Seq<char>
    decreases n,
{
    if n < 10 {
        seq![hex_digit(n as u8)]
    } else {
        dec_of(n / 10).push(hex_digit((n % 10) as u8))
    }
}

/// The decimal rendering of `n`, e.g. `1024` becomes `"1024"`.
#[verifier::loop_isolation(false)]
pub fn u128_to_dec(n: u128) -> (r: String)
    ensures
        r@ == dec_of(n as nat),
{
    let mut digits: Vec<char> = Vec::new();
    let mut m: u128 = n;
    while m >= 10
        invariant
            dec_of(n as nat) =~= dec_of(m as nat) + digits@.reverse(),
        decreases m,
    {
        let d = (m % 10) as u8;
        digits.push(hex_digit_char(d));
        let prev: u128 = m;
        m = m / 10;
        assert(m < prev && dec_of(prev as nat) == dec_of(m as nat).push(hex_digit((prev % 10) as u8)));
        assert(dec_of(n as nat) =~= dec_of(m as nat) + digits@.reverse());
    }
    digits.push(hex_digit_char((m % 10) as u8));
    assert(dec_of(n as nat) =~= digits@.reverse());
    let mut out = String::new();
    let len = digits.len();
    let mut j: usize = 0;
    while j < len
        invariant
            j <= len,
            out@ =~= dec_of(n as nat).take(j as int),
        decreases len - j,
    {
        push_char(&mut out, digits[len - 1 - j]);
        j = j + 1;
        assert(out@ =~= dec_of(n as nat).take(j as int));
    }
    assert(out@ =~= dec_of(n as nat));
    out
}

/// The decimal rendering of an integer: a minus sign before the magnitude
/// when negative.
pub open spec fn dec_int_of(i: int) -> Seq<char> {
    if i < 0 {
        seq!['-'] + dec_of((-i) as nat)
    } else {
        dec_of(i as nat)
    }
}

/// A JSON number node carrying the decimal rendering of `n`.
pub fn json_of_i64(n: i64) -> (r: Json)
    ensures
        r.deep_view() == JsonV::Num(dec_int_of(n as int)),
{
    if n >= 0 {
        let r = Json::Num(u128_to_dec(n as u128));
        assert(r.deep_view()->Num_0 =~= dec_int_of(n as int));
        r
    } else {
        let mag: u128 = (-(n as i128)) as u128;
        let mut s = String::new();
        push_char(&mut s, '-');
        let digits = u128_to_dec(mag);
        s.append(digits.as_str());
        assert(s@ =~= dec_int_of(n as int));
        Json::Num(s)
    }
}

/// A JSON number node carrying the decimal rendering of `n`.
pub fn json_of_u128(n: u128) -> (r: Json)
    ensures
        r.deep_view() == JsonV::Num(dec_of(n as nat)),
{
    Json::Num(u128_to_dec(n))
}

/// A deep copy of the document, equal to the original in the model.
impl Json {
    #[verifier::loop_isolation(false)]
    pub fn deep_copy(&self) -> (r: Json)
        ensures
            r.deep_view() == self.deep_view(),
        decreases self,
    {
        match self {
            Json::Null => Json::Null,
            Json::Bool(b) => Json::Bool(*b),
            Json::Num(s) => Json::Num(s.clone()),
            Json::Str(s) => Json::Str(s.clone()),
            Json::Arr(items) => {
                let mut copy: Vec<Json> = Vec::new();
                let n = items.len();
                let mut i: usize = 0;
                while i < n
                    invariant
                        i <= n,
                        copy@.len() == i,
                        forall|k: int| 0 <= k < i ==> copy@[k].deep_view() == items@[k].deep_view(),
                    decreases n - i,
                {
                    copy.push(items[i].deep_copy());
                    i = i + 1;
                }
                let r = Json::Arr(copy);
                assert(r.deep_view()->Arr_0 =~= self.deep_view()->Arr_0);
                r
            },
            Json::Obj(fields) => {
                let mut copy: Vec<(String, Json)> = Vec::new();
                let n = fields.len();
                let mut i: usize = 0;
                while i < n
                    invariant
                        i <= n,
                        copy@.len() == i,
                        forall|k: int| 0 <= k < i ==> copy@[k].0@ == fields@[k].0@
                            && copy@[k].1.deep_view() == fields@[k].1.deep_view(),
                    decreases n - i,
                {
                    copy.push((fields[i].0.clone(), fields[i].1.deep_copy()));
                    i = i + 1;
                }
                let r = Json::Obj(copy);
                assert(r.deep_view()->Obj_0 =~= self.deep_view()->Obj_0);
                r
            },
        }
    }
}

} // verus!
