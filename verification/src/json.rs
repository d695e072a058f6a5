//! A model of JSON values, holding as plain values what the command
//! engine reads from CDP replies, parsed commands and accessibility nodes.

use vstd::prelude::*;
use crate::text::{chars_eq, chars_of, decimal, digit_char, push_decimal, push_signed_decimal, signed_decimal, string_of};

verus! {

/// A JSON number. Integers are held exactly; a number with a fraction or
/// an exponent is held by its shortest decimal rendering.
#[derive(Debug)]
pub enum JsonNumber {
    /// An integer that is zero or more.
    PosInt(u64),
    /// An integer below zero.
    NegInt(i64),
    /// Any other number, by its rendered text.
    Float(String),
}

/// A JSON value. An object lists its entries in the order they were read.
#[derive(Debug)]
pub enum JsonValue {
    Null,
    Bool(bool),
    Number(JsonNumber),
    Str(String),
    Array(Vec<JsonValue>),
    Object(Vec<(String, JsonValue)>),
}

/// The text that renders a number (`Display` of a JSON number).
pub open spec fn number_text_spec(n: JsonNumber) -> Seq<char> {
    match n {
        JsonNumber::PosInt(u) => decimal(u as nat),
        JsonNumber::NegInt(i) => signed_decimal(i as int),
        JsonNumber::Float(t) => t@,
    }
}

/// The value that an object holds under `key`: the first entry with that key.
pub open spec fn entry_value(entries: Seq<(String, JsonValue)>, key: Seq<char>) -> Option<JsonValue>
    decreases entries.len(),
{
    if entries.len() == 0 {
        None
    } else if entries[0].0@ == key {
        Some(entries[0].1)
    } else {
        entry_value(entries.drop_first(), key)
    }
}

/// `Value::get` with a string key: the member of an object, `None` otherwise.
pub open spec fn json_get(v: JsonValue, key: Seq<char>) -> Option<JsonValue> {
    match v {
        JsonValue::Object(entries) => entry_value(entries@, key),
        _ => None,
    }
}

/// `Value::as_str`.
pub open spec fn json_str(v: JsonValue) -> Option<Seq<char>> {
    match v {
        JsonValue::Str(s) => Some(s@),
        _ => None,
    }
}

/// `Value::as_bool`.
pub open spec fn json_bool(v: JsonValue) -> Option<bool> {
    match v {
        JsonValue::Bool(b) => Some(b),
        _ => None,
    }
}

/// `Value::as_i64`.
pub open spec fn json_i64(v: JsonValue) -> Option<i64> {
    match v {
        JsonValue::Number(JsonNumber::PosInt(u)) => if u <= i64::MAX {
            Some(u as i64)
        } else {
            None
        },
        JsonValue::Number(JsonNumber::NegInt(i)) => Some(i),
        _ => None,
    }
}

/// `Value::as_u64`.
pub open spec fn json_u64(v: JsonValue) -> Option<u64> {
    match v {
        JsonValue::Number(JsonNumber::PosInt(u)) => Some(u),
        _ => None,
    }
}

/// The member `key` of `v` as a string.
pub open spec fn member_str(v: JsonValue, key: Seq<char>) -> Option<Seq<char>> {
    match json_get(v, key) {
        Some(m) => json_str(m),
        None => None,
    }
}

/// The member `key` of `v` as a boolean.
pub open spec fn member_bool(v: JsonValue, key: Seq<char>) -> Option<bool> {
    match json_get(v, key) {
        Some(m) => json_bool(m),
        None => None,
    }
}

/// The member `key` of `v` as an unsigned integer.
pub open spec fn member_u64(v: JsonValue, key: Seq<char>) -> Option<u64> {
    match json_get(v, key) {
        Some(m) => json_u64(m),
        None => None,
    }
}

/// The member `key` of `v` as a signed integer.
pub open spec fn member_i64(v: JsonValue, key: Seq<char>) -> Option<i64> {
    match json_get(v, key) {
        Some(m) => json_i64(m),
        None => None,
    }
}

/// The rendering of a number.
pub fn number_text(n: &JsonNumber) -> (out: String)
    ensures
        out@ == number_text_spec(*n),
{
    match n {
        JsonNumber::PosInt(u) => {
            let mut v: Vec<char> = Vec::new();
            push_decimal(&mut v, *u);
            assert(v@ =~= decimal(*u as nat));
            string_of(&v)
        },
        JsonNumber::NegInt(i) => {
            let mut v: Vec<char> = Vec::new();
            push_signed_decimal(&mut v, *i);
            assert(v@ =~= signed_decimal(*i as int));
            string_of(&v)
        },
        JsonNumber::Float(t) => t.clone(),
    }
}

impl JsonValue {
    /// `Value::get` with a string key.
    pub fn get(&self, key: &str) -> (r: Option<&JsonValue>)
        ensures
            match r {
                Some(m) => json_get(*self, key@) == Some(*m),
                None => json_get(*self, key@) is None,
            },
    {
        match self {
            JsonValue::Object(entries) => {
                let k = chars_of(key);
                let mut i: usize = 0;
                assert(entries@.skip(0) =~= entries@);
                while i < entries.len()
                    invariant
                        i <= entries@.len(),
                        k@ == key@,
                        *self == JsonValue::Object(*entries),
                        entry_value(entries@, key@) == entry_value(entries@.skip(i as int), key@),
                    decreases entries@.len() - i,
                {
                    let ek = chars_of(entries[i].0.as_str());
                    let ghost rest = entries@.skip(i as int);
                    assert(rest[0] == entries@[i as int]);
                    if chars_eq(&ek, &k) {
                        assert(rest[0].0@ == key@);
                        assert(rest.len() > 0);
                        assert(entry_value(rest, key@) == Some(rest[0].1));
                        return Some(&entries[i].1);
                    }
                    assert(rest.drop_first() =~= entries@.skip(i + 1));
                    i = i + 1;
                }
                None
            },
            _ => None,
        }
    }

    /// `Value::as_str`.
    pub fn as_str(&self) -> (r: Option<&str>)
        ensures
            match r {
                Some(s) => json_str(*self) == Some(s@),
                None => json_str(*self) is None,
            },
    {
        match self {
            JsonValue::Str(s) => Some(s.as_str()),
            _ => None,
        }
    }

    /// `Value::as_bool`.
    pub fn as_bool(&self) -> (r: Option<bool>)
        ensures
            r == json_bool(*self),
    {
        match self {
            JsonValue::Bool(b) => Some(*b),
            _ => None,
        }
    }

    /// `Value::as_i64`.
    pub fn as_i64(&self) -> (r: Option<i64>)
        ensures
            r == json_i64(*self),
    {
        match self {
            JsonValue::Number(JsonNumber::PosInt(u)) => if *u <= 9223372036854775807u64 {
                Some(*u as i64)
            } else {
                None
            },
            JsonValue::Number(JsonNumber::NegInt(i)) => Some(*i),
            _ => None,
        }
    }

    /// `Value::as_u64`.
    pub fn as_u64(&self) -> (r: Option<u64>)
        ensures
            r == json_u64(*self),
    {
        match self {
            JsonValue::Number(JsonNumber::PosInt(u)) => Some(*u),
            _ => None,
        }
    }

    /// Whether this is an object with no entries.
    pub fn is_empty_object(&self) -> (r: bool)
        ensures
            r == (match *self {
                JsonValue::Object(entries) => entries@.len() == 0,
                _ => false,
            }),
    {
        match self {
            JsonValue::Object(entries) => entries.len() == 0,
            _ => false,
        }
    }

    /// The member `key` as a string.
    pub fn member_str(&self, key: &str) -> (r: Option<&str>)
        ensures
            match r {
                Some(s) => member_str(*self, key@) == Some(s@),
                None => member_str(*self, key@) is None,
            },
    {
        match self.get(key) {
            Some(m) => m.as_str(),
            None => None,
        }
    }

    /// The member `key` as a boolean.
    pub fn member_bool(&self, key: &str) -> (r: Option<bool>)
        ensures
            r == member_bool(*self, key@),
    {
        match self.get(key) {
            Some(m) => m.as_bool(),
            None => None,
        }
    }

    /// The member `key` as an unsigned integer.
    pub fn member_u64(&self, key: &str) -> (r: Option<u64>)
        ensures
            r == member_u64(*self, key@),
    {
        match self.get(key) {
            Some(m) => m.as_u64(),
            None => None,
        }
    }

    /// The member `key` as a signed integer.
    pub fn member_i64(&self, key: &str) -> (r: Option<i64>)
        ensures
            r == member_i64(*self, key@),
    {
        match self.get(key) {
            Some(m) => m.as_i64(),
            None => None,
        }
    }
}

} // verus!

verus! {

/// A lowercase hexadecimal digit for `d` (below sixteen).
pub open spec fn hex_digit(d: int) -> char {
    if d < 10 {
        digit_char(d)
    } else if d == 10 {
        'a'
    } else if d == 11 {
        'b'
    } else if d == 12 {
        'c'
    } else if d == 13 {
        'd'
    } else if d == 14 {
        'e'
    } else {
        'f'
    }
}

/// How JSON writes one character inside a string literal.
pub open spec fn escape_char(c: char) -> Seq<char> {
    let u = c as u32;
    if c == '"' {
        seq!['\\', '"']
    } else if c == '\\' {
        seq!['\\', '\\']
    } else if u == 0x8 {
        seq!['\\', 'b']
    } else if u == 0x9 {
        seq!['\\', 't']
    } else if u == 0xa {
        seq!['\\', 'n']
    } else if u == 0xc {
        seq!['\\', 'f']
    } else if u == 0xd {
        seq!['\\', 'r']
    } else if u < 0x20 {
        seq!['\\', 'u', '0', '0', hex_digit((u / 16) as int), hex_digit((u % 16) as int)]
    } else {
        seq![c]
    }
}

/// The escaped body of a JSON string literal.
pub open spec fn escape_text(s: Seq<char>) -> Seq<char>
    decreases s.len(),
{
    if s.len() == 0 {
        seq![]
    } else {
        escape_text(s.drop_last()) + escape_char(s.last())
    }
}

/// A JSON string literal for `s`: quotes around its escaped characters.
pub open spec fn json_string_literal(s: Seq<char>) -> Seq<char> {
    seq!['"'] + escape_text(s) + seq!['"']
}

proof fn lemma_escape_char_plain(c: char)
    ensures
        crate::text::plain(escape_char(c)),
{
    let e = escape_char(c);
    let u = c as u32;
    if c == '"' || c == '\\' || u == 0x8 || u == 0x9 || u == 0xa || u == 0xc || u == 0xd {
    } else if u < 0x20 {
        let h1 = hex_digit((u / 16) as int);
        let h2 = hex_digit((u % 16) as int);
        assert(h1 != '\n' && h1 != '\r');
        assert(h2 != '\n' && h2 != '\r');
    } else {
        assert(e == seq![c]);
    }
}

/// A JSON string literal holds neither a raw line break nor a carriage
/// return: both are escaped.
pub proof fn lemma_string_literal_plain(s: Seq<char>)
    ensures
        crate::text::plain(json_string_literal(s)),
    decreases s.len(),
{
    lemma_escape_text_plain(s);
    crate::text::lemma_plain_concat(seq!['"'], escape_text(s));
    crate::text::lemma_plain_concat(seq!['"'] + escape_text(s), seq!['"']);
}

proof fn lemma_escape_text_plain(s: Seq<char>)
    ensures
        crate::text::plain(escape_text(s)),
    decreases s.len(),
{
    if s.len() > 0 {
        lemma_escape_text_plain(s.drop_last());
        lemma_escape_char_plain(s.last());
        crate::text::lemma_plain_concat(escape_text(s.drop_last()), escape_char(s.last()));
    }
}

/// `serde_json::to_string` on a string. Its formatter writes `"`, `\` and
/// the control characters below U+0020 as escapes (`\b`, `\t`, `\n`, `\f`,
/// `\r`, otherwise `\u00` and two lowercase hex digits), every other
/// character as itself, between double quotes; writing into memory cannot
/// fail, so a result always comes back.
#[verifier::external_body]
pub fn quote_json_string(s: &str) -> (r: Option<String>)
    ensures
        r is Some,
        r matches Some(t) ==> t@ == json_string_literal(s@),
{
    serde_json::to_string(s).ok()
}

} // verus!

verus! {

/// Moves the member `key` out of an object.
pub fn take_member(v: JsonValue, key: &str) -> (r: Option<JsonValue>)
    ensures
        r == json_get(v, key@),
{
    let ghost wanted = json_get(v, key@);
    match v {
        JsonValue::Object(mut entries) => {
            let ghost all = entries@;
            assert(wanted == entry_value(all, key@));
            let k = chars_of(key);
            let mut i: usize = 0;
            assert(all.skip(0) =~= all);
            while i < entries.len()
                invariant
                    i <= entries@.len(),
                    entries@ == all,
                    k@ == key@,
                    wanted == entry_value(all, key@),
                    wanted == json_get(v, key@),
                    entry_value(all, key@) == entry_value(all.skip(i as int), key@),
                decreases entries@.len() - i,
            {
                let ek = chars_of(entries[i].0.as_str());
                let ghost rest = all.skip(i as int);
                assert(rest[0] == all[i as int]);
                if chars_eq(&ek, &k) {
                    assert(rest.len() > 0);
                    assert(rest[0].0@ == key@);
                    assert(entry_value(rest, key@) == Some(rest[0].1));
                    let removed = entries.remove(i);
                    assert(removed == all[i as int]);
                    let (_, value) = removed;
                    assert(value == rest[0].1);
                    return Some(value);
                }
                assert(rest.drop_first() =~= all.skip(i + 1));
                i = i + 1;
            }
            None
        },
        _ => None,
    }
}

} // verus!
