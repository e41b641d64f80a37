//! Grouping extracted page data into the sections of a landing page.
use crate::json::{
    entries_get, entries_insert, entries_model, entries_sorted, json_get, lemma_insert_then_get,
    lemma_object_model, object_insert, str_equal, Json, JsonValue,
};
use crate::text::{chars_of, has_prefix, starts_with, string_from_range};
use vstd::prelude::*;

verus! {

/// The models of a list of objects' entries.
pub open spec fn sections_model(v: Seq<Vec<(String, JsonValue)>>) -> Seq<Seq<(Seq<char>, Json)>> {
    Seq::new(v.len(), |i: int| entries_model(v[i]@))
}

/// The sections, in the order in which the result lists them.
pub open spec fn section_names() -> Seq<Seq<char>> {
    seq![
        seq!['m', 'e', 't', 'a'],
        seq!['n', 'a', 'v'],
        seq!['h', 'e', 'r', 'o'],
        seq!['p', 'a', 't', 't', 'e', 'r', 'n', 's'],
        seq!['e', 'x', 'p', 'e', 'r', 'i', 'e', 'n', 'c', 'e', 's'],
        seq!['c', 't', 'a'],
        seq!['f', 'o', 'o', 't', 'e', 'r'],
    ]
}

pub open spec fn kw_items() -> Seq<char> {
    seq!['i', 't', 'e', 'm', 's']
}

/// The section prefixes `hero_`, `patterns_`, `experiences_`, `cta_`,
/// `footer_`, `nav_`: the section name and an underscore.
pub open spec fn prefix_of(section: int) -> Seq<char> {
    section_names()[section].push('_')
}

/// Where an entry goes: its section and its key there. A key with a section's
/// prefix goes to that section without the prefix (the prefixes are tried in
/// the order hero, patterns, experiences, cta, footer, nav); `patterns` and
/// `experiences` go to their section as `items`; any other key goes to `meta`
/// as it is.
pub open spec fn placement(key: Seq<char>) -> (int, Seq<char>) {
    if has_prefix(key, prefix_of(2)) {
        (2, key.skip(prefix_of(2).len() as int))
    } else if has_prefix(key, prefix_of(3)) {
        (3, key.skip(prefix_of(3).len() as int))
    } else if key == section_names()[3] {
        (3, kw_items())
    } else if has_prefix(key, prefix_of(4)) {
        (4, key.skip(prefix_of(4).len() as int))
    } else if key == section_names()[4] {
        (4, kw_items())
    } else if has_prefix(key, prefix_of(5)) {
        (5, key.skip(prefix_of(5).len() as int))
    } else if has_prefix(key, prefix_of(6)) {
        (6, key.skip(prefix_of(6).len() as int))
    } else if has_prefix(key, prefix_of(1)) {
        (1, key.skip(prefix_of(1).len() as int))
    } else {
        (0, key)
    }
}

/// The seven sections after placing the entries before `j`, in order.
pub open spec fn sections_upto(e: Seq<(Seq<char>, Json)>, j: int) -> Seq<Seq<(Seq<char>, Json)>>
    decreases j,
{
    if j <= 0 || j > e.len() {
        Seq::new(7, |i: int| Seq::empty())
    } else {
        let prev = sections_upto(e, j - 1);
        let (s, k) = placement(e[j - 1].0);
        prev.update(s, entries_insert(prev[s], k, e[j - 1].1))
    }
}

/// The object of the sections, each under its name.
pub open spec fn sections_object(secs: Seq<Seq<(Seq<char>, Json)>>, j: int) -> Seq<
    (Seq<char>, Json),
>
    decreases j,
{
    if j <= 0 {
        Seq::empty()
    } else {
        entries_insert(
            sections_object(secs, j - 1),
            section_names()[j - 1],
            Json::Object(secs[j - 1]),
        )
    }
}

/// An object of page data grouped into sections; any other value as it is.
pub open spec fn organized(data: Json) -> Json {
    match data {
        Json::Object(e) => Json::Object(sections_object(sections_upto(e, e.len() as int), 7)),
        _ => data,
    }
}

proof fn lemma_names_distinct()
    ensures
        forall|i: int, j: int|
            0 <= i < 7 && 0 <= j < 7 && i != j ==> #[trigger] section_names()[i]
                != #[trigger] section_names()[j],
{
    assert forall|i: int, j: int| 0 <= i < 7 && 0 <= j < 7 && i != j implies #[trigger] section_names()[i]
        != #[trigger] section_names()[j] by {
        assert(section_names()[i][0] != section_names()[j][0]);
    }
}

proof fn lemma_sections_object(secs: Seq<Seq<(Seq<char>, Json)>>, j: int, k: Seq<char>)
    requires
        0 <= j <= 7,
    ensures
        entries_sorted(sections_object(secs, j)),
        forall|i: int|
            0 <= i < j && section_names()[i] == k ==> entries_get(sections_object(secs, j), k)
                == Some(Json::Object(#[trigger] secs[i])),
        (forall|i: int| 0 <= i < j ==> #[trigger] section_names()[i] != k) ==> entries_get(
            sections_object(secs, j),
            k,
        ) is None,
    decreases j,
{
    lemma_names_distinct();
    if j > 0 {
        let prev = sections_object(secs, j - 1);
        lemma_sections_object(secs, j - 1, k);
        lemma_insert_then_get(prev, section_names()[j - 1], Json::Object(secs[j - 1]), k);
        assert forall|i: int| 0 <= i < j && section_names()[i] == k implies entries_get(
            sections_object(secs, j),
            k,
        ) == Some(Json::Object(#[trigger] secs[i])) by {
            if i < j - 1 {
                assert(section_names()[i] != section_names()[j - 1]);
            }
        }
    }
}

/// Grouping gives an object with the seven sections, each an object under its
/// name, and nothing else.
pub proof fn law_sections(e: Seq<(Seq<char>, Json)>, k: Seq<char>)
    ensures
        organized(Json::Object(e)) is Object,
        entries_sorted(organized(Json::Object(e))->Object_0),
        forall|i: int|
            0 <= i < 7 && section_names()[i] == k ==> json_get(organized(Json::Object(e)), k)
                == Some(Json::Object(#[trigger] sections_upto(e, e.len() as int)[i])),
        (forall|i: int| 0 <= i < 7 ==> #[trigger] section_names()[i] != k) ==> json_get(
            organized(Json::Object(e)),
            k,
        ) is None,
{
    lemma_sections_object(sections_upto(e, e.len() as int), 7, k);
}

proof fn lemma_sections_sorted(e: Seq<(Seq<char>, Json)>, j: int)
    ensures
        sections_upto(e, j).len() == 7,
        forall|s: int| 0 <= s < 7 ==> entries_sorted(#[trigger] sections_upto(e, j)[s]),
    decreases j,
{
    if j <= 0 || j > e.len() {
        assert forall|s: int| 0 <= s < 7 implies entries_sorted(#[trigger] sections_upto(e, j)[s]) by {
            assert(sections_upto(e, j)[s] =~= Seq::<(Seq<char>, Json)>::empty());
        }
    } else {
        lemma_sections_sorted(e, j - 1);
        let prev = sections_upto(e, j - 1);
        let (s, k) = placement(e[j - 1].0);
        lemma_insert_then_get(prev[s], k, e[j - 1].1, k);
    }
}

proof fn lemma_sections_get(e: Seq<(Seq<char>, Json)>, x: int, j: int)
    requires
        0 <= x < j <= e.len(),
        forall|y: int| x < y < j ==> placement(#[trigger] e[y].0) != placement(e[x].0),
    ensures
        entries_get(sections_upto(e, j)[placement(e[x].0).0], placement(e[x].0).1) == Some(e[x].1),
    decreases j,
{
    let (s, k) = placement(e[x].0);
    lemma_sections_sorted(e, j - 1);
    let prev = sections_upto(e, j - 1);
    let (s2, k2) = placement(e[j - 1].0);
    if j - 1 == x {
        lemma_insert_then_get(prev[s], k, e[x].1, k);
    } else {
        lemma_sections_get(e, x, j - 1);
        if s2 == s {
            assert(k2 != k);
            lemma_insert_then_get(prev[s2], k2, e[j - 1].1, k);
        }
    }
}

/// Grouping loses no entry: each entry, unless a later entry goes to the same
/// place, is found in the section its key names, under the key that section
/// gives it; in particular a key with no section prefix, and neither
/// `patterns` nor `experiences`, is found in `meta` under its own name.
pub proof fn law_sections_keep_entries(e: Seq<(Seq<char>, Json)>, x: int)
    requires
        0 <= x < e.len(),
        forall|y: int| x < y < e.len() ==> placement(#[trigger] e[y].0) != placement(e[x].0),
    ensures
        json_get(organized(Json::Object(e)), section_names()[placement(e[x].0).0]) matches Some(
            Json::Object(sec),
        ) && entries_get(sec, placement(e[x].0).1) == Some(e[x].1),
        ((forall|s: int| 1 <= s < 7 ==> !has_prefix(e[x].0, #[trigger] prefix_of(s))) && e[x].0
            != section_names()[3] && e[x].0 != section_names()[4]) ==> (json_get(
            organized(Json::Object(e)),
            section_names()[0],
        ) matches Some(Json::Object(meta)) && entries_get(meta, e[x].0) == Some(e[x].1)),
{
    let (s, k) = placement(e[x].0);
    assert(0 <= s < 7);
    lemma_sections_get(e, x, e.len() as int);
    lemma_sections_object(sections_upto(e, e.len() as int), 7, section_names()[s]);
    if (forall|t: int| 1 <= t < 7 ==> !has_prefix(e[x].0, #[trigger] prefix_of(t))) && e[x].0
        != section_names()[3] && e[x].0 != section_names()[4] {
        assert(!has_prefix(e[x].0, prefix_of(2)));
        assert(!has_prefix(e[x].0, prefix_of(3)));
        assert(!has_prefix(e[x].0, prefix_of(4)));
        assert(!has_prefix(e[x].0, prefix_of(5)));
        assert(!has_prefix(e[x].0, prefix_of(6)));
        assert(!has_prefix(e[x].0, prefix_of(1)));
        assert(placement(e[x].0) == (0int, e[x].0));
    }
}

fn section_name(s: usize) -> (r: &'static str)
    requires
        s < 7,
    ensures
        r@ == section_names()[s as int],
{
    proof {
        reveal_strlit("meta");
        reveal_strlit("nav");
        reveal_strlit("hero");
        reveal_strlit("patterns");
        reveal_strlit("experiences");
        reveal_strlit("cta");
        reveal_strlit("footer");
    }
    let r = if s == 0 {
        "meta"
    } else if s == 1 {
        "nav"
    } else if s == 2 {
        "hero"
    } else if s == 3 {
        "patterns"
    } else if s == 4 {
        "experiences"
    } else if s == 5 {
        "cta"
    } else {
        "footer"
    };
    assert(r@ =~= section_names()[s as int]);
    r
}

fn section_prefix(s: usize) -> (r: &'static str)
    requires
        1 <= s < 7,
    ensures
        r@ == prefix_of(s as int),
{
    proof {
        reveal_strlit("nav_");
        reveal_strlit("hero_");
        reveal_strlit("patterns_");
        reveal_strlit("experiences_");
        reveal_strlit("cta_");
        reveal_strlit("footer_");
    }
    let r = if s == 1 {
        "nav_"
    } else if s == 2 {
        "hero_"
    } else if s == 3 {
        "patterns_"
    } else if s == 4 {
        "experiences_"
    } else if s == 5 {
        "cta_"
    } else {
        "footer_"
    };
    assert(r@ =~= prefix_of(s as int));
    r
}

/// Where an entry with key `key` goes (see `placement`).
pub fn place(key: &str) -> (r: (usize, String))
    ensures
        r.0 < 7,
        (r.0 as int, r.1@) == placement(key@),
{
    let cs = chars_of(key);
    proof {
        reveal_strlit("items");
        assert("items"@ =~= kw_items());
    }
    // the prefixes, and the two whole keys, in the order `placement` tries them
    let p2 = section_prefix(2);
    if starts_with(&cs, p2) {
        let k = string_from_range(&cs, p2.unicode_len(), cs.len());
        return (2, k);
    }
    let p3 = section_prefix(3);
    if starts_with(&cs, p3) {
        let k = string_from_range(&cs, p3.unicode_len(), cs.len());
        return (3, k);
    }
    if str_equal(key, section_name(3)) {
        return (3, "items".to_owned());
    }
    let p4 = section_prefix(4);
    if starts_with(&cs, p4) {
        let k = string_from_range(&cs, p4.unicode_len(), cs.len());
        return (4, k);
    }
    if str_equal(key, section_name(4)) {
        return (4, "items".to_owned());
    }
    let p5 = section_prefix(5);
    if starts_with(&cs, p5) {
        let k = string_from_range(&cs, p5.unicode_len(), cs.len());
        return (5, k);
    }
    let p6 = section_prefix(6);
    if starts_with(&cs, p6) {
        let k = string_from_range(&cs, p6.unicode_len(), cs.len());
        return (6, k);
    }
    let p1 = section_prefix(1);
    if starts_with(&cs, p1) {
        let k = string_from_range(&cs, p1.unicode_len(), cs.len());
        return (1, k);
    }
    (0, key.to_owned())
}

/// Groups page data into the sections `meta`, `nav`, `hero`, `patterns`,
/// `experiences`, `cta` and `footer` (see `placement`); a value that is not
/// an object comes back as it is.
pub fn organize_into_sections(data: &JsonValue) -> (r: JsonValue)
    ensures
        r.model() == organized(data.model()),
{
    let entries = match data {
        JsonValue::Object(e) => e,
        _ => {
            return data.duplicate();
        },
    };
    proof {
        lemma_object_model(*entries);
    }
    let ghost e = entries_model(entries@);
    let mut secs: Vec<Vec<(String, JsonValue)>> = Vec::new();
    let mut s: usize = 0;
    while s < 7
        invariant
            s <= 7,
            secs@.len() == s,
            forall|i: int| 0 <= i < s ==> (#[trigger] secs@[i])@.len() == 0,
        decreases 7 - s,
    {
        secs.push(Vec::new());
        s = s + 1;
    }
    assert forall|i: int| 0 <= i < 7 implies #[trigger] sections_model(secs@)[i] == Seq::<
        (Seq<char>, Json),
    >::empty() by {
        assert(entries_model(secs@[i]@) =~= Seq::<(Seq<char>, Json)>::empty());
    }
    assert(sections_model(secs@) =~= sections_upto(e, 0));
    let mut j: usize = 0;
    while j < entries.len()
        invariant
            j <= entries@.len(),
            e == entries_model(entries@),
            secs@.len() == 7,
            sections_model(secs@) == sections_upto(
                e,
                j as int,
            ),
        decreases entries@.len() - j,
    {
        let ghost before = secs@;
        let (s, k) = place(entries[j].0.as_str());
        let mut sec = secs.remove(s);
        object_insert(&mut sec, k, entries[j].1.duplicate());
        secs.insert(s, sec);
        assert(sections_model(secs@) =~= sections_upto(
            e,
            j + 1,
        ));
        j = j + 1;
    }
    let ghost sm = sections_upto(e, entries@.len() as int);
    let mut out: Vec<(String, JsonValue)> = Vec::new();
    let mut s: usize = 0;
    while s < 7
        invariant
            s <= 7,
            secs@.len() == 7 - s,
            forall|i: int| 0 <= i < 7 - s ==> entries_model((#[trigger] secs@[i])@) == sm[i + s],
            entries_model(out@) == sections_object(sm, s as int),
        decreases 7 - s,
    {
        let sec = secs.remove(0);
        proof {
            lemma_object_model(sec);
        }
        object_insert(&mut out, section_name(s).to_owned(), JsonValue::Object(sec));
        s = s + 1;
    }
    proof {
        lemma_object_model(out);
    }
    JsonValue::Object(out)
}

} // verus!
