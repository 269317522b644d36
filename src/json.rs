//! JSON documents as the library reads them from venue frames.
use vstd::prelude::*;

verus! {

/// A JSON value. Numbers keep serde_json's text for them; object members keep
/// serde_json's order and have unique keys.
#[derive(Debug)]
pub enum Json {
    Null,
    Bool(bool),
    Number(String),
    Str(String),
    Array(Vec<Json>),
    Object(Vec<(String, Json)>),
}

#[verifier::external_type_specification]
#[verifier::external_body]
pub struct ExValue(serde_json::Value);

/// The document serde_json reads from the text `s`, as a `Json`
/// (`None` where serde_json rejects the text).
pub uninterp spec fn json_of_text(s: Seq<char>) -> Option<Json>;

/// Rebuilds a serde_json `Value` as a `Json`, variant by variant; a number
/// becomes the text serde_json displays for it. Used by `decode_json` only.
#[verifier::external_body]
fn json_from_value(v: serde_json::Value) -> Json {
    match v {
        serde_json::Value::Null => Json::Null,
        serde_json::Value::Bool(b) => Json::Bool(b),
        serde_json::Value::Number(n) => Json::Number(n.to_string()),
        serde_json::Value::String(s) => Json::Str(s),
        serde_json::Value::Array(a) => Json::Array(a.into_iter().map(json_from_value).collect()),
        serde_json::Value::Object(m) => Json::Object(m.into_iter().map(|(k, x)| (k, json_from_value(x))).collect()),
    }
}

/// Relies on serde_json's `from_str::<serde_json::Value>`: the document in `raw`,
/// rebuilt by `json_from_value`; `None` where serde_json rejects the text.
#[verifier::external_body]
pub(crate) fn decode_json(raw: &str) -> (r: Option<Json>)
    ensures
        r == json_of_text(raw@),
{
    serde_json::from_str::<serde_json::Value>(raw).ok().map(json_from_value)
}

/// The first member named `key` among object members.
pub open spec fn member(fields: Seq<(String, Json)>, key: Seq<char>) -> Option<Json>
    decreases fields.len(),
{
    if fields.len() == 0 {
        None
    } else if fields[0].0@ == key {
        Some(fields[0].1)
    } else {
        member(fields.skip(1), key)
    }
}

/// The member `key` of an object; `None` for a missing key or a non-object.
pub open spec fn field(j: Json, key: Seq<char>) -> Option<Json> {
    match j {
        Json::Object(fields) => member(fields@, key),
        _ => None,
    }
}

pub open spec fn is_object(j: Json) -> bool {
    j is Object
}

pub open spec fn text(j: Json) -> Option<Seq<char>> {
    match j {
        Json::Str(s) => Some(s@),
        _ => None,
    }
}

pub open spec fn text_or_empty(j: Json) -> Seq<char> {
    match j {
        Json::Str(s) => s@,
        _ => Seq::empty(),
    }
}

/// An array of strings.
pub open spec fn texts(j: Json) -> Option<Seq<Seq<char>>> {
    match j {
        Json::Array(items) => if forall|i: int| 0 <= i < items@.len() ==> (#[trigger] items@[i]) is Str {
            Some(texts_of(items@))
        } else {
            None
        },
        _ => None,
    }
}

pub open spec fn texts_of(items: Seq<Json>) -> Seq<Seq<char>> {
    items.map_values(|x: Json| text_or_empty(x))
}

pub open spec fn rows_of(items: Seq<Json>) -> Seq<Seq<Seq<char>>> {
    items.map_values(|x: Json| texts_or_empty(x))
}

pub open spec fn strings_view(v: Seq<String>) -> Seq<Seq<char>> {
    v.map_values(|s: String| s@)
}

pub open spec fn texts_or_empty(j: Json) -> Seq<Seq<char>> {
    match texts(j) {
        Some(t) => t,
        None => Seq::empty(),
    }
}

/// An array of arrays of strings.
pub open spec fn text_rows(j: Json) -> Option<Seq<Seq<Seq<char>>>> {
    match j {
        Json::Array(items) => if forall|i: int|
            0 <= i < items@.len() ==> texts(#[trigger] items@[i]) is Some {
            Some(rows_of(items@))
        } else {
            None
        },
        _ => None,
    }
}

/// Every row has exactly `width` entries.
pub open spec fn rows_of_width(rows: Seq<Seq<Seq<char>>>, width: nat) -> bool {
    forall|i: int| 0 <= i < rows.len() ==> (#[trigger] rows[i]).len() == width
}

pub open spec fn is_digit(c: char) -> bool {
    '0' <= c <= '9'
}

/// The value of a string of decimal digits.
pub open spec fn digits_value(s: Seq<char>) -> int
    decreases s.len(),
{
    if s.len() == 0 {
        0
    } else {
        digits_value(s.drop_last()) * 10 + (s.last() as int - '0' as int)
    }
}

/// The `u64` a number's text stands for, where it is a plain non-negative
/// integer in range.
pub open spec fn u64_of_text(s: Seq<char>) -> Option<u64> {
    if s.len() > 0 && (forall|i: int| 0 <= i < s.len() ==> is_digit(#[trigger] s[i])) && digits_value(s)
        <= u64::MAX {
        Some(digits_value(s) as u64)
    } else {
        None
    }
}

proof fn lemma_digits_grow(s: Seq<char>, i: int)
    requires
        0 <= i <= s.len(),
        forall|k: int| 0 <= k < s.len() ==> is_digit(#[trigger] s[k]),
    ensures
        digits_value(s.take(i)) <= digits_value(s),
        digits_value(s.take(i)) >= 0,
    decreases s.len() - i,
{
    if i < s.len() {
        lemma_digits_grow(s, i + 1);
        assert(s.take(i + 1).drop_last() =~= s.take(i));
        lemma_digits_nonneg(s.take(i));
    } else {
        assert(s.take(i) =~= s);
        lemma_digits_nonneg(s);
    }
}

proof fn lemma_digits_nonneg(s: Seq<char>)
    requires
        forall|k: int| 0 <= k < s.len() ==> is_digit(#[trigger] s[k]),
    ensures
        digits_value(s) >= 0,
    decreases s.len(),
{
    if s.len() > 0 {
        lemma_digits_nonneg(s.drop_last());
    }
}

/// Read a `u64` from a number's text.
pub fn u64_from_text(s: &str) -> (r: Option<u64>)
    ensures
        r == u64_of_text(s@),
{
    let n = s.unicode_len();
    if n == 0 {
        return None;
    }
    let mut v: u64 = 0;
    let mut i: usize = 0;
    while i < n
        invariant
            n == s@.len(),
            i <= n,
            forall|k: int| 0 <= k < i ==> is_digit(#[trigger] s@[k]),
            v == digits_value(s@.take(i as int)),
        decreases n - i,
    {
        let c = s.get_char(i);
        if !('0' <= c && c <= '9') {
            return None;
        }
        let d = (c as u32 - '0' as u32) as u64;
        proof {
            assert(s@.take(i + 1).drop_last() =~= s@.take(i as int));
        }
        if v > (u64::MAX - d) / 10 {
            proof {
                if forall|k: int| 0 <= k < s@.len() ==> is_digit(#[trigger] s@[k]) {
                    lemma_digits_grow(s@, i + 1);
                }
            }
            return None;
        }
        v = v * 10 + d;
        i = i + 1;
    }
    proof {
        assert(s@.take(n as int) =~= s@);
    }
    Some(v)
}

/// Whether two texts are equal.
pub fn same_text(a: &str, b: &str) -> (r: bool)
    ensures
        r == (a@ == b@),
{
    let n = a.unicode_len();
    if n != b.unicode_len() {
        return false;
    }
    let mut i: usize = 0;
    while i < n
        invariant
            n == a@.len(),
            n == b@.len(),
            i <= n,
            forall|k: int| 0 <= k < i ==> a@[k] == b@[k],
        decreases n - i,
    {
        if a.get_char(i) != b.get_char(i) {
            return false;
        }
        i = i + 1;
    }
    proof {
        assert(a@ =~= b@);
    }
    true
}

/// Whether `s` begins with `prefix`.
pub fn starts_with(s: &str, prefix: &str) -> (r: bool)
    ensures
        r == (prefix@.len() <= s@.len() && s@.take(prefix@.len() as int) == prefix@),
{
    let n = prefix.unicode_len();
    if n > s.unicode_len() {
        return false;
    }
    let mut i: usize = 0;
    while i < n
        invariant
            n == prefix@.len(),
            n <= s@.len(),
            i <= n,
            forall|k: int| 0 <= k < i ==> s@[k] == prefix@[k],
        decreases n - i,
    {
        if s.get_char(i) != prefix.get_char(i) {
            proof {
                assert(s@.take(n as int)[i as int] != prefix@[i as int]);
            }
            return false;
        }
        i = i + 1;
    }
    proof {
        assert(s@.take(n as int) =~= prefix@);
    }
    true
}

impl Json {
    /// The member `key` of an object.
    pub fn get(&self, key: &str) -> (r: Option<&Json>)
        ensures
            match r {
                Some(v) => field(*self, key@) == Some(*v),
                None => field(*self, key@) is None,
            },
    {
        match self {
            Json::Object(fields) => {
                let k = key.to_owned();
                let mut i: usize = 0;
                proof {
                    assert(fields@.skip(0) =~= fields@);
                }
                while i < fields.len()
                    invariant
                        i <= fields@.len(),
                        k@ == key@,
                        field(*self, key@) == member(fields@, key@),
                        member(fields@, key@) == member(fields@.skip(i as int), key@),
                    decreases fields@.len() - i,
                {
                    proof {
                        assert(fields@.skip(i as int).skip(1) =~= fields@.skip(i + 1));
                        assert(fields@.skip(i as int)[0] == fields@[i as int]);
                    }
                    if fields[i].0 == k {
                        proof {
                            assert(member(fields@.skip(i as int), key@) == Some(fields@[i as int].1));
                        }
                        return Some(&fields[i].1);
                    }
                    i = i + 1;
                }
                None
            },
            _ => None,
        }
    }

    /// The text of a string value.
    pub fn as_text(&self) -> (r: Option<&String>)
        ensures
            match r {
                Some(s) => text(*self) == Some(s@),
                None => text(*self) is None,
            },
    {
        match self {
            Json::Str(s) => Some(s),
            _ => None,
        }
    }

    /// The texts of an array of strings.
    pub fn as_texts(&self) -> (r: Option<Vec<String>>)
        ensures
            match r {
                Some(v) => texts(*self) == Some(strings_view(v@)),
                None => texts(*self) is None,
            },
    {
        match self {
            Json::Array(items) => {
                let mut out: Vec<String> = Vec::new();
                let mut i: usize = 0;
                while i < items.len()
                    invariant
                        i <= items@.len(),
                        *self == Json::Array(*items),
                        forall|k: int| 0 <= k < i ==> (#[trigger] items@[k]) is Str,
                        strings_view(out@) =~= texts_of(items@.take(i as int)),
                    decreases items@.len() - i,
                {
                    match &items[i] {
                        Json::Str(s) => {
                            let ghost before = out@;
                            let c = s.clone();
                            out.push(c);
                            proof {
                                assert(text_or_empty(items@[i as int]) == s@);
                                assert(out@ == before.push(c));
                                assert(items@.take(i + 1) =~= items@.take(i as int).push(items@[i as int]));
                                assert(strings_view(out@) =~= strings_view(before).push(c@));
                                assert(texts_of(items@.take(i + 1)) =~= texts_of(items@.take(i as int)).push(
                                    text_or_empty(items@[i as int]),
                                ));
                                assert(strings_view(out@) =~= texts_of(items@.take(i + 1)));
                            }
                        },
                        _ => {
                            proof {
                                assert(!(items@[i as int] is Str));
                            }
                            return None;
                        },
                    }
                    i = i + 1;
                }
                proof {
                    assert(items@.take(i as int) =~= items@);
                }
                Some(out)
            },
            _ => None,
        }
    }

    /// The rows of an array of arrays of strings.
    pub fn as_text_rows(&self) -> (r: Option<Vec<Vec<String>>>)
        ensures
            match r {
                Some(v) => text_rows(*self) == Some(rows_view(v@)),
                None => text_rows(*self) is None,
            },
    {
        match self {
            Json::Array(items) => {
                let mut out: Vec<Vec<String>> = Vec::new();
                let mut i: usize = 0;
                while i < items.len()
                    invariant
                        i <= items@.len(),
                        *self == Json::Array(*items),
                        forall|k: int| 0 <= k < i ==> texts(#[trigger] items@[k]) is Some,
                        rows_view(out@) =~= rows_of(items@.take(i as int)),
                    decreases items@.len() - i,
                {
                    match items[i].as_texts() {
                        Some(row) => {
                            let ghost before = out@;
                            out.push(row);
                            proof {
                                assert(out@ == before.push(row));
                                assert(texts_or_empty(items@[i as int]) == strings_view(row@));
                                assert(items@.take(i + 1) =~= items@.take(i as int).push(items@[i as int]));
                                assert(rows_view(out@) =~= rows_view(before).push(strings_view(row@)));
                                assert(rows_of(items@.take(i + 1)) =~= rows_of(items@.take(i as int)).push(
                                    texts_or_empty(items@[i as int]),
                                ));
                                assert(rows_view(out@) =~= rows_of(items@.take(i + 1)));
                            }
                        },
                        None => {
                            proof {
                                assert(texts(items@[i as int]) is None);
                            }
                            return None;
                        },
                    }
                    i = i + 1;
                }
                proof {
                    assert(items@.take(i as int) =~= items@);
                }
                Some(out)
            },
            _ => None,
        }
    }
}

pub open spec fn rows_view(rows: Seq<Vec<String>>) -> Seq<Seq<Seq<char>>> {
    rows.map_values(|r: Vec<String>| strings_view(r@))
}

} // verus!
