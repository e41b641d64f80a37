//! JSON values as the extractor produces them and the renderer reads them.
//!
//! The objects that extraction builds keep their entries sorted by key in the
//! byte order of the keys' UTF-8 encoding, with no key twice: the order in
//! which a JSON map is walked and printed.
use vstd::prelude::*;
use vstd::utf8::*;

verus! {

/// The mathematical model of a JSON value.
pub enum Json {
    Null,
    Bool(bool),
    /// A number, held as the text that represents it.
    Number(Seq<char>),
    Str(Seq<char>),
    Array(Seq<Json>),
    Object(Seq<(Seq<char>, Json)>),
}

/// A JSON value.
pub enum JsonValue {
    Null,
    Bool(bool),
    /// A number, held as the text that represents it (such as `12` or `1.5`).
    Number(String),
    Str(String),
    Array(Vec<JsonValue>),
    /// The entries of an object, in order. Extraction builds them sorted by
    /// key with each key once (`entries_sorted`, see `law_document_sorted`)
    /// and `object_insert` puts a new key in its place; a value built by hand
    /// may hold any entries, and a lookup takes the first with the key.
    Object(Vec<(String, JsonValue)>),
}

impl JsonValue {
    pub open spec fn model(&self) -> Json
        decreases self,
    {
        match self {
            JsonValue::Null => Json::Null,
            JsonValue::Bool(b) => Json::Bool(*b),
            JsonValue::Number(n) => Json::Number(n@),
            JsonValue::Str(s) => Json::Str(s@),
            JsonValue::Array(v) => Json::Array(
                Seq::new(
                    v.len() as nat,
                    |i: int|
                        if 0 <= i < v@.len() {
                            v@[i].model()
                        } else {
                            Json::Null
                        },
                ),
            ),
            JsonValue::Object(v) => Json::Object(
                Seq::new(
                    v.len() as nat,
                    |i: int|
                        if 0 <= i < v@.len() {
                            (v@[i].0@, v@[i].1.model())
                        } else {
                            (Seq::empty(), Json::Null)
                        },
                ),
            ),
        }
    }
}

/// The model of a list of object entries.
pub open spec fn entries_model(v: Seq<(String, JsonValue)>) -> Seq<(Seq<char>, Json)> {
    Seq::new(v.len(), |i: int| (v[i].0@, v[i].1.model()))
}

/// The model of a list of values.
pub open spec fn values_model(v: Seq<JsonValue>) -> Seq<Json> {
    Seq::new(v.len(), |i: int| v[i].model())
}

pub proof fn lemma_object_model(v: Vec<(String, JsonValue)>)
    ensures
        JsonValue::Object(v).model() == Json::Object(entries_model(v@)),
{
    assert(JsonValue::Object(v).model()->Object_0 =~= entries_model(v@));
}

pub proof fn lemma_array_model(v: Vec<JsonValue>)
    ensures
        JsonValue::Array(v).model() == Json::Array(values_model(v@)),
{
    assert(JsonValue::Array(v).model()->Array_0 =~= values_model(v@));
}

// ---------------------------------------------------------------------------
// Key order
// ---------------------------------------------------------------------------
/// Lexicographic order on byte strings.
pub open spec fn bytes_less(a: Seq<u8>, b: Seq<u8>) -> bool
    decreases a.len(),
{
    if a.len() == 0 {
        b.len() > 0
    } else if b.len() == 0 {
        false
    } else if a[0] < b[0] {
        true
    } else if a[0] > b[0] {
        false
    } else {
        bytes_less(a.drop_first(), b.drop_first())
    }
}

/// The order of `String` keys: that of their UTF-8 bytes.
pub open spec fn key_less(a: Seq<char>, b: Seq<char>) -> bool {
    bytes_less(encode_utf8(a), encode_utf8(b))
}

pub proof fn lemma_bytes_less_irreflexive(a: Seq<u8>)
    ensures
        !bytes_less(a, a),
    decreases a.len(),
{
    if a.len() > 0 {
        lemma_bytes_less_irreflexive(a.drop_first());
    }
}

pub proof fn lemma_bytes_less_asymmetric(a: Seq<u8>, b: Seq<u8>)
    ensures
        bytes_less(a, b) ==> !bytes_less(b, a),
    decreases a.len(),
{
    if a.len() > 0 && b.len() > 0 && a[0] == b[0] {
        lemma_bytes_less_asymmetric(a.drop_first(), b.drop_first());
    }
}

pub proof fn lemma_bytes_less_transitive(a: Seq<u8>, b: Seq<u8>, c: Seq<u8>)
    ensures
        bytes_less(a, b) && bytes_less(b, c) ==> bytes_less(a, c),
    decreases a.len(),
{
    if a.len() > 0 && b.len() > 0 && c.len() > 0 {
        lemma_bytes_less_transitive(a.drop_first(), b.drop_first(), c.drop_first());
    }
}

pub proof fn lemma_bytes_less_total(a: Seq<u8>, b: Seq<u8>)
    ensures
        a != b ==> bytes_less(a, b) || bytes_less(b, a),
    decreases a.len(),
{
    if a.len() > 0 && b.len() > 0 && a[0] == b[0] {
        lemma_bytes_less_total(a.drop_first(), b.drop_first());
        if a.drop_first() == b.drop_first() {
            assert(a =~= seq![a[0]] + a.drop_first());
            assert(b =~= seq![b[0]] + b.drop_first());
        }
    } else if a.len() == 0 && b.len() == 0 {
        assert(a =~= b);
    }
}

/// `key_less` is a strict total order.
pub proof fn lemma_key_order(a: Seq<char>, b: Seq<char>, c: Seq<char>)
    ensures
        !key_less(a, a),
        key_less(a, b) ==> !key_less(b, a),
        key_less(a, b) && key_less(b, c) ==> key_less(a, c),
        a != b ==> key_less(a, b) || key_less(b, a),
{
    lemma_bytes_less_irreflexive(encode_utf8(a));
    lemma_bytes_less_asymmetric(encode_utf8(a), encode_utf8(b));
    lemma_bytes_less_transitive(encode_utf8(a), encode_utf8(b), encode_utf8(c));
    lemma_bytes_less_total(encode_utf8(a), encode_utf8(b));
    if a != b {
        encode_utf8_decode_utf8(a);
        encode_utf8_decode_utf8(b);
    }
}

/// Whether `a` comes before `b` in the order of keys.
pub fn key_before(a: &str, b: &str) -> (r: bool)
    ensures
        r == key_less(a@, b@),
{
    let x = a.as_bytes();
    let y = b.as_bytes();
    let mut i: usize = 0;
    assert(x@.skip(0) =~= x@);
    assert(y@.skip(0) =~= y@);
    while i < x.len() && i < y.len() && x[i] == y[i]
        invariant
            i <= x@.len(),
            i <= y@.len(),
            x@ == encode_utf8(a@),
            y@ == encode_utf8(b@),
            bytes_less(x@, y@) == bytes_less(x@.skip(i as int), y@.skip(i as int)),
        decreases x@.len() - i,
    {
        assert(x@.skip(i as int).drop_first() =~= x@.skip(i + 1));
        assert(y@.skip(i as int).drop_first() =~= y@.skip(i + 1));
        i = i + 1;
    }
    if i == x.len() {
        i < y.len()
    } else if i == y.len() {
        false
    } else {
        x[i] < y[i]
    }
}

// ---------------------------------------------------------------------------
// Objects
// ---------------------------------------------------------------------------
/// Entries sorted strictly by key, so that no key occurs twice.
pub open spec fn entries_sorted(e: Seq<(Seq<char>, Json)>) -> bool {
    forall|i: int, j: int| 0 <= i < j < e.len() ==> key_less(#[trigger] e[i].0, #[trigger] e[j].0)
}

/// The value under `key`: that of the first entry with that key.
pub open spec fn entries_get(e: Seq<(Seq<char>, Json)>, key: Seq<char>) -> Option<Json>
    decreases e.len(),
{
    if e.len() == 0 {
        None
    } else if e[0].0 == key {
        Some(e[0].1)
    } else {
        entries_get(e.drop_first(), key)
    }
}

/// `e` with `key` set to `value`: the entry with that key is replaced, or a
/// new entry goes in before the first greater key.
pub open spec fn entries_insert(e: Seq<(Seq<char>, Json)>, key: Seq<char>, value: Json) -> Seq<
    (Seq<char>, Json),
>
    decreases e.len(),
{
    if e.len() == 0 {
        seq![(key, value)]
    } else if e[0].0 == key {
        seq![(key, value)] + e.drop_first()
    } else if key_less(key, e[0].0) {
        seq![(key, value)] + e
    } else {
        seq![e[0]] + entries_insert(e.drop_first(), key, value)
    }
}

/// Setting a key keeps the entries sorted; the key then reads back the value
/// set, and every other key reads back what it read before.
pub proof fn lemma_insert_then_get(
    e: Seq<(Seq<char>, Json)>,
    key: Seq<char>,
    value: Json,
    other: Seq<char>,
)
    requires
        entries_sorted(e),
    ensures
        entries_sorted(entries_insert(e, key, value)),
        entries_get(entries_insert(e, key, value), key) == Some(value),
        other != key ==> entries_get(entries_insert(e, key, value), other) == entries_get(e, other),
    decreases e.len(),
{
    let r = entries_insert(e, key, value);
    if e.len() == 0 {
    } else if e[0].0 == key {
        assert(r.drop_first() =~= e.drop_first());
        assert forall|i: int, j: int| 0 <= i < j < r.len() implies key_less(
            #[trigger] r[i].0,
            #[trigger] r[j].0,
        ) by {
            assert(r[j] == e[j]);
            if i > 0 {
                assert(r[i] == e[i]);
            }
        }
        if other != key {
            assert(entries_get(r, other) == entries_get(r.drop_first(), other));
        }
    } else if key_less(key, e[0].0) {
        assert(r.drop_first() =~= e);
        assert forall|i: int, j: int| 0 <= i < j < r.len() implies key_less(
            #[trigger] r[i].0,
            #[trigger] r[j].0,
        ) by {
            assert(r[j] == e[j - 1]);
            if i > 0 {
                assert(r[i] == e[i - 1]);
            } else if j - 1 > 0 {
                lemma_key_order(key, e[0].0, e[j - 1].0);
                assert(key_less(e[0].0, e[j - 1].0));
            }
        }
        if other != key {
            assert(entries_get(r, other) == entries_get(e, other));
        }
    } else {
        let rest = e.drop_first();
        assert(entries_sorted(rest)) by {
            assert forall|i: int, j: int| 0 <= i < j < rest.len() implies key_less(
                #[trigger] rest[i].0,
                #[trigger] rest[j].0,
            ) by {
                assert(rest[i] == e[i + 1]);
                assert(rest[j] == e[j + 1]);
            }
        }
        lemma_insert_then_get(rest, key, value, other);
        let r2 = entries_insert(rest, key, value);
        assert(r.drop_first() =~= r2);
        lemma_key_order(key, e[0].0, key);
        assert(key_less(e[0].0, key));
        // every key of r2 is a key of rest or `key`, all after e[0]
        assert forall|j: int| 0 <= j < r2.len() implies key_less(e[0].0, #[trigger] r2[j].0) by {
            lemma_insert_keys(rest, key, value, j);
            if r2[j].0 != key {
                let k = choose|k: int| 0 <= k < rest.len() && rest[k].0 == r2[j].0;
                assert(rest[k] == e[k + 1]);
            }
        }
        assert forall|i: int, j: int| 0 <= i < j < r.len() implies key_less(
            #[trigger] r[i].0,
            #[trigger] r[j].0,
        ) by {
            assert(r[j] == r2[j - 1]);
            if i > 0 {
                assert(r[i] == r2[i - 1]);
            }
        }
    }
}

/// Every key after setting is the key set or a key from before.
pub proof fn lemma_insert_keys(e: Seq<(Seq<char>, Json)>, key: Seq<char>, value: Json, j: int)
    requires
        0 <= j < entries_insert(e, key, value).len(),
    ensures
        entries_insert(e, key, value)[j].0 == key || exists|k: int|
            0 <= k < e.len() && e[k].0 == entries_insert(e, key, value)[j].0,
    decreases e.len(),
{
    let r = entries_insert(e, key, value);
    if e.len() == 0 {
    } else if e[0].0 == key {
        if j > 0 {
            assert(r[j] == e[j]);
        }
    } else if key_less(key, e[0].0) {
        if j > 0 {
            assert(r[j] == e[j - 1]);
        }
    } else {
        if j == 0 {
            assert(r[0] == e[0]);
        } else {
            lemma_insert_keys(e.drop_first(), key, value, j - 1);
            assert(r[j] == entries_insert(e.drop_first(), key, value)[j - 1]);
            if r[j].0 != key {
                let k = choose|k: int|
                    0 <= k < e.drop_first().len() && e.drop_first()[k].0 == r[j].0;
                assert(e[k + 1] == e.drop_first()[k]);
            }
        }
    }
}

/// A key that reads a value is the key of some entry.
pub proof fn lemma_get_some(e: Seq<(Seq<char>, Json)>, key: Seq<char>)
    ensures
        entries_get(e, key) is Some ==> exists|i: int| 0 <= i < e.len() && (#[trigger] e[i]).0 == key,
    decreases e.len(),
{
    if e.len() > 0 && e[0].0 != key {
        lemma_get_some(e.drop_first(), key);
        if entries_get(e, key) is Some {
            let rest = e.drop_first();
            let i = choose|i: int| 0 <= i < rest.len() && (#[trigger] rest[i]).0 == key;
            assert(e[i + 1] == e.drop_first()[i]);
        }
    }
}

/// The split that `object_insert` computes: entries before `i` have smaller
/// keys, the entry at `i` (if any) does not.
proof fn lemma_insert_split(e: Seq<(Seq<char>, Json)>, key: Seq<char>, value: Json, i: int)
    requires
        0 <= i <= e.len(),
        forall|j: int| 0 <= j < i ==> key_less(#[trigger] e[j].0, key),
        i < e.len() ==> !key_less(e[i].0, key),
    ensures
        entries_insert(e, key, value) == if i < e.len() && e[i].0 == key {
            e.take(i) + seq![(key, value)] + e.skip(i + 1)
        } else {
            e.take(i) + seq![(key, value)] + e.skip(i)
        },
    decreases i,
{
    if i == 0 {
        if e.len() > 0 {
            lemma_key_order(key, e[0].0, key);
            assert(e.skip(1) =~= e.drop_first());
            assert(e.skip(0) =~= e);
        }
        assert(e.take(0) =~= Seq::<(Seq<char>, Json)>::empty());
    } else {
        lemma_key_order(key, e[0].0, key);
        assert(e[0].0 != key);
        assert(!key_less(key, e[0].0));
        let rest = e.drop_first();
        assert forall|j: int| 0 <= j < i - 1 implies key_less(#[trigger] rest[j].0, key) by {
            assert(rest[j] == e[j + 1]);
        }
        lemma_insert_split(rest, key, value, i - 1);
        if i < e.len() && e[i].0 == key {
            assert(e.take(i) + seq![(key, value)] + e.skip(i + 1) =~= seq![e[0]] + (rest.take(i - 1)
                + seq![(key, value)] + rest.skip(i)));
        } else {
            assert(e.take(i) + seq![(key, value)] + e.skip(i) =~= seq![e[0]] + (rest.take(i - 1)
                + seq![(key, value)] + rest.skip(i - 1)));
        }
    }
}

/// Sets `key` to `value` in the entries of an object.
pub fn object_insert(entries: &mut Vec<(String, JsonValue)>, key: String, value: JsonValue)
    ensures
        entries_model(final(entries)@) == entries_insert(
            entries_model(old(entries)@),
            key@,
            value.model(),
        ),
{
    let ghost e = entries_model(entries@);
    let mut i: usize = 0;
    while i < entries.len() && key_before(entries[i].0.as_str(), key.as_str())
        invariant
            i <= entries@.len(),
            e == entries_model(entries@),
            forall|j: int| 0 <= j < i ==> key_less(#[trigger] e[j].0, key@),
        decreases entries@.len() - i,
    {
        i = i + 1;
    }
    proof {
        lemma_insert_split(e, key@, value.model(), i as int);
    }
    let ghost kv = (key@, value.model());
    if i < entries.len() && entries[i].0 == key {
        entries.remove(i);
        entries.insert(i, (key, value));
        assert(entries_model(entries@) =~= e.take(i as int) + seq![kv] + e.skip(i + 1));
    } else {
        entries.insert(i, (key, value));
        assert(entries_model(entries@) =~= e.take(i as int) + seq![kv] + e.skip(i as int));
    }
}

/// The value under `key` among the entries of an object.
pub fn object_get<'a>(entries: &'a Vec<(String, JsonValue)>, key: &str) -> (r: Option<&'a JsonValue>)
    ensures
        entries_get(entries_model(entries@), key@) == match r {
            Some(v) => Some(v.model()),
            None => None,
        },
{
    let ghost e = entries_model(entries@);
    let mut i: usize = 0;
    assert(e.skip(0) =~= e);
    while i < entries.len()
        invariant
            i <= entries@.len(),
            e == entries_model(entries@),
            entries_get(e, key@) == entries_get(e.skip(i as int), key@),
        decreases entries@.len() - i,
    {
        assert(e.skip(i as int)[0] == e[i as int]);
        if str_equal(entries[i].0.as_str(), key) {
            return Some(&entries[i].1);
        }
        assert(e.skip(i as int).drop_first() =~= e.skip(i + 1));
        i = i + 1;
    }
    None
}

/// Equality of two strings.
pub fn str_equal(a: &str, b: &str) -> (r: bool)
    ensures
        r == (a@ == b@),
{
    let x = a.as_bytes();
    let y = b.as_bytes();
    proof {
        encode_utf8_decode_utf8(a@);
        encode_utf8_decode_utf8(b@);
    }
    if x.len() != y.len() {
        return false;
    }
    let mut i: usize = 0;
    while i < x.len()
        invariant
            i <= x@.len(),
            x@.len() == y@.len(),
            x@ == encode_utf8(a@),
            y@ == encode_utf8(b@),
            forall|j: int| 0 <= j < i ==> x@[j] == y@[j],
        decreases x@.len() - i,
    {
        if x[i] != y[i] {
            assert(x@[i as int] != y@[i as int]);
            return false;
        }
        i = i + 1;
    }
    assert(x@ =~= y@);
    true
}

impl JsonValue {
    /// The value under `key` when `self` is an object; `None` otherwise.
    pub fn get(&self, key: &str) -> (r: Option<&JsonValue>)
        ensures
            json_get(self.model(), key@) == match r {
                Some(v) => Some(v.model()),
                None => None,
            },
    {
        match self {
            JsonValue::Object(entries) => {
                proof {
                    lemma_object_model(*entries);
                }
                object_get(entries, key)
            },
            _ => None,
        }
    }

    /// A copy of `self`.
    pub fn duplicate(&self) -> (r: JsonValue)
        ensures
            r.model() == self.model(),
        decreases self,
    {
        match self {
            JsonValue::Null => JsonValue::Null,
            JsonValue::Bool(b) => JsonValue::Bool(*b),
            JsonValue::Number(n) => JsonValue::Number(n.clone()),
            JsonValue::Str(s) => JsonValue::Str(s.clone()),
            JsonValue::Array(items) => {
                let mut out: Vec<JsonValue> = Vec::new();
                let mut i: usize = 0;
                while i < items.len()
                    invariant
                        i <= items@.len(),
                        *self == JsonValue::Array(*items),
                        out@.len() == i,
                        forall|j: int| 0 <= j < i ==> (#[trigger] out@[j]).model() == items@[j].model(),
                    decreases items@.len() - i,
                {
                    proof {
                        assert(decreases_to!(*self => self->Array_0));
                        assert(decreases_to!(*items => items@));
                        assert(decreases_to!(items@ => items@[i as int]));
                    }
                    let v = items[i].duplicate();
                    out.push(v);
                    i = i + 1;
                }
                proof {
                    lemma_array_model(*items);
                    lemma_array_model(out);
                    assert(values_model(out@) =~= values_model(items@));
                }
                JsonValue::Array(out)
            },
            JsonValue::Object(entries) => {
                let mut out: Vec<(String, JsonValue)> = Vec::new();
                let mut i: usize = 0;
                while i < entries.len()
                    invariant
                        i <= entries@.len(),
                        *self == JsonValue::Object(*entries),
                        out@.len() == i,
                        forall|j: int|
                            0 <= j < i ==> (#[trigger] out@[j]).0@ == entries@[j].0@ && out@[j].1.model()
                                == entries@[j].1.model(),
                    decreases entries@.len() - i,
                {
                    let k = entries[i].0.clone();
                    proof {
                        assert(decreases_to!(*self => self->Object_0));
                        assert(decreases_to!(*entries => entries@));
                        assert(decreases_to!(entries@ => entries@[i as int]));
                        assert(decreases_to!(entries@[i as int] => entries@[i as int].1));
                    }
                    let v = entries[i].1.duplicate();
                    out.push((k, v));
                    i = i + 1;
                }
                proof {
                    lemma_object_model(*entries);
                    lemma_object_model(out);
                    assert(entries_model(out@) =~= entries_model(entries@));
                }
                JsonValue::Object(out)
            },
        }
    }
}

/// What `get` gives: the value under `key` of an object, nothing otherwise.
pub open spec fn json_get(j: Json, key: Seq<char>) -> Option<Json> {
    match j {
        Json::Object(e) => entries_get(e, key),
        _ => None,
    }
}

// ---------------------------------------------------------------------------
// JSON text
// ---------------------------------------------------------------------------
/// A hexadecimal digit, in lower case.
pub open spec fn hex_digit(d: int) -> char {
    seq!['0', '1', '2', '3', '4', '5', '6', '7', '8', '9', 'a', 'b', 'c', 'd', 'e', 'f'][d]
}

/// How a character is written inside a JSON string: `"` and `\` and the
/// control characters are escaped, with the short forms where JSON has one.
pub open spec fn escape_char(c: char) -> Seq<char> {
    if c == '"' {
        seq!['\\', '"']
    } else if c == '\\' {
        seq!['\\', '\\']
    } else if c == '\u{8}' {
        seq!['\\', 'b']
    } else if c == '\u{c}' {
        seq!['\\', 'f']
    } else if c == '\n' {
        seq!['\\', 'n']
    } else if c == '\r' {
        seq!['\\', 'r']
    } else if c == '\t' {
        seq!['\\', 't']
    } else if (c as u32) < 0x20 {
        seq!['\\', 'u', '0', '0', hex_digit((c as u32) as int / 16), hex_digit((c as u32) as int % 16)]
    } else {
        seq![c]
    }
}

pub open spec fn escaped(s: Seq<char>) -> Seq<char>
    decreases s.len(),
{
    if s.len() == 0 {
        Seq::empty()
    } else {
        escaped(s.drop_last()) + escape_char(s.last())
    }
}

/// A JSON string literal.
pub open spec fn quoted(s: Seq<char>) -> Seq<char> {
    seq!['"'] + escaped(s) + seq!['"']
}

/// The compact JSON text of a value, with object entries in their order.
pub open spec fn json_text(j: Json) -> Seq<char>
    decreases j,
{
    match j {
        Json::Null => seq!['n', 'u', 'l', 'l'],
        Json::Bool(b) => if b {
            seq!['t', 'r', 'u', 'e']
        } else {
            seq!['f', 'a', 'l', 's', 'e']
        },
        Json::Number(n) => n,
        Json::Str(s) => quoted(s),
        Json::Array(items) => seq!['['] + items_text(items) + seq![']'],
        Json::Object(e) => seq!['{'] + entries_text(e) + seq!['}'],
    }
}

/// Values separated by commas.
pub open spec fn items_text(s: Seq<Json>) -> Seq<char>
    decreases s,
{
    if s.len() == 0 {
        Seq::empty()
    } else if s.len() == 1 {
        json_text(s[0])
    } else {
        items_text(s.drop_last()) + seq![','] + json_text(s[s.len() - 1])
    }
}

/// Entries `"key":value` separated by commas.
pub open spec fn entries_text(e: Seq<(Seq<char>, Json)>) -> Seq<char>
    decreases e,
{
    if e.len() == 0 {
        Seq::empty()
    } else if e.len() == 1 {
        quoted(e[0].0) + seq![':'] + json_text(e[0].1)
    } else {
        entries_text(e.drop_last()) + seq![','] + quoted(e[e.len() - 1].0) + seq![':'] + json_text(
            e[e.len() - 1].1,
        )
    }
}

fn hex_char(d: u32) -> (r: char)
    requires
        d < 16,
    ensures
        r == hex_digit(d as int),
{
    match d {
        0 => '0',
        1 => '1',
        2 => '2',
        3 => '3',
        4 => '4',
        5 => '5',
        6 => '6',
        7 => '7',
        8 => '8',
        9 => '9',
        10 => 'a',
        11 => 'b',
        12 => 'c',
        13 => 'd',
        14 => 'e',
        _ => 'f',
    }
}

/// Appends the JSON string literal of `s` to `out`.
pub fn write_quoted(s: &str, out: &mut String)
    ensures
        final(out)@ == old(out)@ + quoted(s@),
{
    let cs = crate::text::chars_of(s);
    crate::text::push_char(out, '"');
    let ghost start = out@;
    let mut i: usize = 0;
    while i < cs.len()
        invariant
            i <= cs@.len(),
            out@ == start + escaped(cs@.take(i as int)),
        decreases cs@.len() - i,
    {
        let c = cs[i];
        let ghost before = out@;
        let u = c as u32;
        if c == '"' {
            crate::text::push_char(out, '\\');
            crate::text::push_char(out, '"');
        } else if c == '\\' {
            crate::text::push_char(out, '\\');
            crate::text::push_char(out, '\\');
        } else if c == '\u{8}' {
            crate::text::push_char(out, '\\');
            crate::text::push_char(out, 'b');
        } else if c == '\u{c}' {
            crate::text::push_char(out, '\\');
            crate::text::push_char(out, 'f');
        } else if c == '\n' {
            crate::text::push_char(out, '\\');
            crate::text::push_char(out, 'n');
        } else if c == '\r' {
            crate::text::push_char(out, '\\');
            crate::text::push_char(out, 'r');
        } else if c == '\t' {
            crate::text::push_char(out, '\\');
            crate::text::push_char(out, 't');
        } else if u < 0x20 {
            crate::text::push_char(out, '\\');
            crate::text::push_char(out, 'u');
            crate::text::push_char(out, '0');
            crate::text::push_char(out, '0');
            crate::text::push_char(out, hex_char(u / 16));
            crate::text::push_char(out, hex_char(u % 16));
        } else {
            crate::text::push_char(out, c);
        }
        assert(cs@.take(i + 1).drop_last() =~= cs@.take(i as int));
        assert(out@ =~= before + escape_char(c));
        i = i + 1;
    }
    assert(cs@.take(cs@.len() as int) =~= cs@);
    crate::text::push_char(out, '"');
    assert(out@ =~= old(out)@ + quoted(s@));
}

/// Appends the compact JSON text of `v` to `out` (what `to_string` gives for a
/// JSON value).
pub fn write_json(v: &JsonValue, out: &mut String)
    ensures
        final(out)@ == old(out)@ + json_text(v.model()),
    decreases v,
{
    match v {
        JsonValue::Null => {
            proof {
                reveal_strlit("null");
            }
            crate::text::push_str(out, "null");
        },
        JsonValue::Bool(b) => {
            proof {
                reveal_strlit("true");
                reveal_strlit("false");
            }
            if *b {
                crate::text::push_str(out, "true");
            } else {
                crate::text::push_str(out, "false");
            }
        },
        JsonValue::Number(n) => {
            crate::text::push_str(out, n.as_str());
        },
        JsonValue::Str(s) => {
            write_quoted(s.as_str(), out);
        },
        JsonValue::Array(items) => {
            proof {
                lemma_array_model(*items);
            }
            let ghost m = values_model(items@);
            crate::text::push_char(out, '[');
            let ghost start = out@;
            let mut i: usize = 0;
            while i < items.len()
                invariant
                    i <= items@.len(),
                    *v == JsonValue::Array(*items),
                    m == values_model(items@),
                    out@ == start + items_text(m.take(i as int)),
                decreases items@.len() - i,
            {
                proof {
                    assert(decreases_to!(*v => v->Array_0));
                    assert(decreases_to!(*items => items@));
                    assert(decreases_to!(items@ => items@[i as int]));
                }
                if i > 0 {
                    crate::text::push_char(out, ',');
                }
                write_json(&items[i], out);
                assert(m.take(i + 1).drop_last() =~= m.take(i as int));
                assert(m.take(i + 1)[i as int] == items@[i as int].model());
                i = i + 1;
            }
            assert(m.take(items@.len() as int) =~= m);
            crate::text::push_char(out, ']');
            assert(out@ =~= old(out)@ + json_text(v.model()));
        },
        JsonValue::Object(entries) => {
            proof {
                lemma_object_model(*entries);
            }
            let ghost m = entries_model(entries@);
            crate::text::push_char(out, '{');
            let ghost start = out@;
            let mut i: usize = 0;
            while i < entries.len()
                invariant
                    i <= entries@.len(),
                    *v == JsonValue::Object(*entries),
                    m == entries_model(entries@),
                    out@ == start + entries_text(m.take(i as int)),
                decreases entries@.len() - i,
            {
                proof {
                    assert(decreases_to!(*v => v->Object_0));
                    assert(decreases_to!(*entries => entries@));
                    assert(decreases_to!(entries@ => entries@[i as int]));
                    assert(decreases_to!(entries@[i as int] => entries@[i as int].1));
                }
                if i > 0 {
                    crate::text::push_char(out, ',');
                }
                write_quoted(entries[i].0.as_str(), out);
                crate::text::push_char(out, ':');
                write_json(&entries[i].1, out);
                assert(m.take(i + 1).drop_last() =~= m.take(i as int));
                assert(m.take(i + 1)[i as int] == m[i as int]);
                i = i + 1;
            }
            assert(m.take(entries@.len() as int) =~= m);
            crate::text::push_char(out, '}');
            assert(out@ =~= old(out)@ + json_text(v.model()));
        },
    }
}

/// The compact JSON text of `v`.
pub fn to_json_text(v: &JsonValue) -> (r: String)
    ensures
        r@ == json_text(v.model()),
{
    let mut out = String::new();
    write_json(v, &mut out);
    assert(out@ =~= json_text(v.model()));
    out
}

} // verus!
