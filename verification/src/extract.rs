//! Extraction: the JSON data that the `rmx-*` and `data-rmx` annotations of a
//! document mark.
use crate::dom::{
    describe_html, find_subtree_end, get_attr, is_element_child, lemma_subtree_end, node_attr,
    parsed_nodes, subtree_end, NodeRecord,
};
use crate::json::{
    entries_get, entries_sorted, json_get, lemma_insert_then_get, lemma_insert_keys, lemma_get_some,
    entries_insert, entries_model, lemma_array_model, lemma_object_model, object_insert,
    str_equal, values_model, Json, JsonValue,
};
use crate::text::{chars_of, has_prefix, starts_with, string_from_range, trim, trimmed};
use vstd::prelude::*;

verus! {

pub open spec fn kw_rmx_name() -> Seq<char> {
    seq!['r', 'm', 'x', '-', 'n', 'a', 'm', 'e']
}

pub open spec fn kw_rmx_type() -> Seq<char> {
    seq!['r', 'm', 'x', '-', 't', 'y', 'p', 'e']
}

pub open spec fn kw_data_rmx() -> Seq<char> {
    seq!['d', 'a', 't', 'a', '-', 'r', 'm', 'x']
}

pub open spec fn kw_text() -> Seq<char> {
    seq!['t', 'e', 'x', 't']
}

pub open spec fn kw_image() -> Seq<char> {
    seq!['i', 'm', 'a', 'g', 'e']
}

pub open spec fn kw_list() -> Seq<char> {
    seq!['l', 'i', 's', 't']
}

pub open spec fn kw_src() -> Seq<char> {
    seq!['s', 'r', 'c']
}

pub open spec fn kw_attr_prefix() -> Seq<char> {
    seq!['a', 't', 't', 'r', ':']
}

pub open spec fn kw_children() -> Seq<char> {
    seq!['c', 'h', 'i', 'l', 'd', 'r', 'e', 'n']
}

// ---------------------------------------------------------------------------
// What is extracted
// ---------------------------------------------------------------------------
/// The `rmx-name` of a node, if it has one (it is then selected by `[rmx-name]`).
pub open spec fn rmx_name(n: NodeRecord) -> Option<Seq<char>> {
    node_attr(n, kw_rmx_name())
}

/// The node is selected by `[rmx-type="list"]`.
pub open spec fn is_list(n: NodeRecord) -> bool {
    node_attr(n, kw_rmx_type()) == Some(kw_list())
}

/// The extraction type of a node: its `rmx-type`, `text` when that is missing
/// or empty.
pub open spec fn rmx_type(n: NodeRecord) -> Seq<char> {
    match node_attr(n, kw_rmx_type()) {
        Some(t) => if t.len() == 0 {
            kw_text()
        } else {
            t
        },
        None => kw_text(),
    }
}

/// An attribute as a JSON value: its text, or `null` when it is missing.
pub open spec fn attr_json(n: NodeRecord, name: Seq<char>) -> Json {
    match node_attr(n, name) {
        Some(v) => Json::Str(v),
        None => Json::Null,
    }
}

/// The trimmed text of a node.
pub open spec fn text_json(n: NodeRecord) -> Json {
    Json::Str(trimmed(n.text@))
}

/// Some list at `k`, with `lo <= k < d`, has the node at `d` in its subtree.
pub open spec fn under_list(nodes: Seq<NodeRecord>, lo: int, d: int) -> bool {
    exists|k: int| lo <= k < d && is_list(#[trigger] nodes[k]) && d < subtree_end(nodes, k)
}

/// The value extracted from the node at `x`, by its type: `text` (and any
/// type not listed) gives the trimmed text, `image` the `src` attribute,
/// `attr:NAME` the attribute NAME, `list` the items of its element children.
pub open spec fn node_value(nodes: Seq<NodeRecord>, x: int) -> Json
    decreases nodes.len() - x, 2int, 0int,
{
    if !(0 <= x < nodes.len()) {
        Json::Null
    } else {
        let n = nodes[x];
        let t = rmx_type(n);
        if t == kw_text() {
            text_json(n)
        } else if t == kw_image() {
            attr_json(n, kw_src())
        } else if t == kw_list() {
            Json::Array(list_items(nodes, x, subtree_end(nodes, x)))
        } else if has_prefix(t, kw_attr_prefix()) {
            attr_json(n, t.skip(5))
        } else {
            text_json(n)
        }
    }
}

/// The items of the list at `x` from its element children before `j`: each
/// child gives the object of its item, unless that object is empty.
pub open spec fn list_items(nodes: Seq<NodeRecord>, x: int, j: int) -> Seq<Json>
    decreases nodes.len() - x, 1int, j,
{
    if !(0 <= x < nodes.len()) || j <= x + 1 || j > nodes.len() {
        Seq::empty()
    } else {
        let prev = list_items(nodes, x, j - 1);
        let c = j - 1;
        if is_element_child(nodes, x, c) {
            let item = item_entries(nodes, c, subtree_end(nodes, c));
            if item.len() > 0 {
                prev.push(Json::Object(item))
            } else {
                prev
            }
        } else {
            prev
        }
    }
}

/// The object of the list item at `c`, from itself and its descendants before
/// `j`: the item's own `rmx-name` first, then each named descendant that no
/// list inside the item holds.
pub open spec fn item_entries(nodes: Seq<NodeRecord>, c: int, j: int) -> Seq<(Seq<char>, Json)>
    decreases nodes.len() - c, 3int, j,
{
    if !(0 <= c < nodes.len()) {
        Seq::empty()
    } else if j <= c + 1 || j > nodes.len() {
        match rmx_name(nodes[c]) {
            Some(name) => entries_insert(Seq::empty(), name, node_value(nodes, c)),
            None => Seq::empty(),
        }
    } else {
        let prev = item_entries(nodes, c, j - 1);
        let d = j - 1;
        match rmx_name(nodes[d]) {
            Some(name) => if under_list(nodes, c + 1, d) {
                prev
            } else {
                entries_insert(prev, name, node_value(nodes, d))
            },
            None => prev,
        }
    }
}

/// The entries from the named nodes before `j` that no list holds, in
/// document order (a later node with the same name wins).
pub open spec fn top_entries(nodes: Seq<NodeRecord>, j: int) -> Seq<(Seq<char>, Json)>
    decreases j,
{
    if j <= 0 || j > nodes.len() {
        Seq::empty()
    } else {
        let prev = top_entries(nodes, j - 1);
        let d = j - 1;
        match rmx_name(nodes[d]) {
            Some(name) => if under_list(nodes, 0, d) {
                prev
            } else {
                entries_insert(prev, name, node_value(nodes, d))
            },
            None => prev,
        }
    }
}

/// The attributes before `j` as string entries, leaving out `skip`.
pub open spec fn attr_entries(attrs: Seq<(String, String)>, skip: Option<Seq<char>>, j: int) -> Seq<
    (Seq<char>, Json),
>
    decreases j,
{
    if j <= 0 || j > attrs.len() {
        Seq::empty()
    } else {
        let prev = attr_entries(attrs, skip, j - 1);
        let a = attrs[j - 1];
        if skip == Some(a.0@) {
            prev
        } else {
            entries_insert(prev, a.0@, Json::Str(a.1@))
        }
    }
}

/// The objects of the element children before `j` of the component at `x`
/// that have attributes: all their attributes as strings.
pub open spec fn component_children(nodes: Seq<NodeRecord>, x: int, j: int) -> Seq<Json>
    decreases j,
{
    if !(0 <= x < nodes.len()) || j <= x + 1 || j > nodes.len() {
        Seq::empty()
    } else {
        let prev = component_children(nodes, x, j - 1);
        let c = j - 1;
        if is_element_child(nodes, x, c) && nodes[c].attrs@.len() > 0 {
            prev.push(Json::Object(attr_entries(nodes[c].attrs@, None, nodes[c].attrs@.len() as int)))
        } else {
            prev
        }
    }
}

/// The object of a web component: its attributes but `data-rmx`, and, when
/// any element child has attributes, those children under `children`.
pub open spec fn component_value(nodes: Seq<NodeRecord>, x: int) -> Json {
    let own = attr_entries(nodes[x].attrs@, Some(kw_data_rmx()), nodes[x].attrs@.len() as int);
    let kids = component_children(nodes, x, subtree_end(nodes, x));
    if kids.len() > 0 {
        Json::Object(entries_insert(own, kw_children(), Json::Array(kids)))
    } else {
        Json::Object(own)
    }
}

/// `base` with, for each node before `j` that has a `data-rmx` name, that name
/// set to the component's object, in document order.
pub open spec fn component_entries(
    nodes: Seq<NodeRecord>,
    base: Seq<(Seq<char>, Json)>,
    j: int,
) -> Seq<(Seq<char>, Json)>
    decreases j,
{
    if j <= 0 || j > nodes.len() {
        base
    } else {
        let prev = component_entries(nodes, base, j - 1);
        let d = j - 1;
        match node_attr(nodes[d], kw_data_rmx()) {
            Some(name) => entries_insert(prev, name, component_value(nodes, d)),
            None => prev,
        }
    }
}

/// The data of a described document: the named nodes outside lists, then
/// the web components over them.
pub open spec fn document_value(nodes: Seq<NodeRecord>) -> Json {
    Json::Object(
        component_entries(nodes, top_entries(nodes, nodes.len() as int), nodes.len() as int),
    )
}

// ---------------------------------------------------------------------------
// Laws
// ---------------------------------------------------------------------------
/// Which attribute extraction reads for a type: `src` for `image`, NAME for
/// `attr:NAME`; none for `list` and for the text types.
pub open spec fn read_attribute(t: Seq<char>) -> Option<Seq<char>> {
    if t == kw_text() || t == kw_list() {
        None
    } else if t == kw_image() {
        Some(kw_src())
    } else if has_prefix(t, kw_attr_prefix()) {
        Some(t.skip(5))
    } else {
        None
    }
}

/// A node that is not a list gives the attribute its type reads (`image` being
/// `attr:src`), or its trimmed text when its type reads no attribute: a
/// missing, empty or unknown type gives the text.
pub proof fn law_value_by_type(nodes: Seq<NodeRecord>, x: int)
    requires
        0 <= x < nodes.len(),
        rmx_type(nodes[x]) != kw_list(),
    ensures
        node_value(nodes, x) == match read_attribute(rmx_type(nodes[x])) {
            Some(a) => attr_json(nodes[x], a),
            None => text_json(nodes[x]),
        },
        node_attr(nodes[x], kw_rmx_type()) is None ==> node_value(nodes, x) == text_json(nodes[x]),
        rmx_type(nodes[x]) == kw_image() ==> node_value(nodes, x) == attr_json(nodes[x], kw_src()),
        rmx_type(nodes[x]) == kw_attr_prefix() + kw_src() ==> node_value(nodes, x) == attr_json(
            nodes[x],
            kw_src(),
        ),
{
    let t = rmx_type(nodes[x]);
    if t == kw_attr_prefix() + kw_src() {
        assert(t.len() == 8);
        assert(t.take(5) =~= kw_attr_prefix());
        assert(t.skip(5) =~= kw_src());
        assert(t != kw_text());
        assert(t != kw_image());
    }
}

/// The items of a list are objects with at least one entry.
pub proof fn law_list_items_are_objects(nodes: Seq<NodeRecord>, x: int, j: int)
    ensures
        forall|i: int|
            0 <= i < list_items(nodes, x, j).len() ==> (#[trigger] list_items(nodes, x, j)[i] is Object)
                && list_items(nodes, x, j)[i]->Object_0.len() > 0,
    decreases j,
{
    if 0 <= x < nodes.len() && x + 1 < j <= nodes.len() {
        law_list_items_are_objects(nodes, x, j - 1);
    }
}

proof fn lemma_attr_entries_sorted(attrs: Seq<(String, String)>, skip: Option<Seq<char>>, j: int)
    ensures
        entries_sorted(attr_entries(attrs, skip, j)),
        skip matches Some(k) ==> entries_get(attr_entries(attrs, skip, j), k) is None,
    decreases j,
{
    if j > 0 && j <= attrs.len() {
        lemma_attr_entries_sorted(attrs, skip, j - 1);
        let a = attrs[j - 1];
        if skip != Some(a.0@) {
            let k = match skip {
                Some(k) => k,
                None => a.0@,
            };
            lemma_insert_then_get(attr_entries(attrs, skip, j - 1), a.0@, Json::Str(a.1@), k);
        }
    }
}

/// The object of a web component never holds its `data-rmx` attribute, and
/// holds each other attribute as a string unless a `children` list replaces it.
pub proof fn law_component_object(nodes: Seq<NodeRecord>, x: int)
    requires
        0 <= x < nodes.len(),
    ensures
        component_value(nodes, x) is Object,
        entries_sorted(component_value(nodes, x)->Object_0),
        entries_get(component_value(nodes, x)->Object_0, kw_data_rmx()) is None,
{
    let own = attr_entries(nodes[x].attrs@, Some(kw_data_rmx()), nodes[x].attrs@.len() as int);
    let kids = component_children(nodes, x, subtree_end(nodes, x));
    lemma_attr_entries_sorted(nodes[x].attrs@, Some(kw_data_rmx()), nodes[x].attrs@.len() as int);
    if kids.len() > 0 {
        assert(kw_data_rmx() != kw_children());
        lemma_insert_then_get(own, kw_children(), Json::Array(kids), kw_data_rmx());
    }
}

proof fn lemma_attr_entries_get(
    attrs: Seq<(String, String)>,
    skip: Option<Seq<char>>,
    i: int,
    j: int,
)
    requires
        0 <= i < j <= attrs.len(),
        skip != Some(attrs[i].0@),
        forall|y: int| i < y < j ==> (#[trigger] attrs[y]).0@ != attrs[i].0@,
    ensures
        entries_get(attr_entries(attrs, skip, j), attrs[i].0@) == Some(Json::Str(attrs[i].1@)),
    decreases j,
{
    let a = attrs[j - 1];
    lemma_attr_entries_sorted(attrs, skip, j - 1);
    if j - 1 == i {
        lemma_insert_then_get(attr_entries(attrs, skip, j - 1), a.0@, Json::Str(a.1@), a.0@);
    } else {
        lemma_attr_entries_get(attrs, skip, i, j - 1);
        if skip != Some(a.0@) {
            lemma_insert_then_get(
                attr_entries(attrs, skip, j - 1),
                a.0@,
                Json::Str(a.1@),
                attrs[i].0@,
            );
        }
    }
}

/// A web component's object holds each of its attributes but `data-rmx`,
/// under the attribute's name and as its string value (when the name occurs
/// once, and but `children` when the object holds its children's list).
pub proof fn law_component_keeps_attributes(nodes: Seq<NodeRecord>, x: int, i: int)
    requires
        0 <= x < nodes.len(),
        0 <= i < nodes[x].attrs@.len(),
        nodes[x].attrs@[i].0@ != kw_data_rmx(),
        forall|y: int|
            0 <= y < nodes[x].attrs@.len() && y != i ==> (#[trigger] nodes[x].attrs@[y]).0@
                != nodes[x].attrs@[i].0@,
        nodes[x].attrs@[i].0@ == kw_children() ==> component_children(
            nodes,
            x,
            subtree_end(nodes, x),
        ).len() == 0,
    ensures
        component_value(nodes, x) matches Json::Object(obj) && entries_get(
            obj,
            nodes[x].attrs@[i].0@,
        ) == Some(Json::Str(nodes[x].attrs@[i].1@)),
{
    let attrs = nodes[x].attrs@;
    let own = attr_entries(attrs, Some(kw_data_rmx()), attrs.len() as int);
    let kids = component_children(nodes, x, subtree_end(nodes, x));
    lemma_attr_entries_get(attrs, Some(kw_data_rmx()), i, attrs.len() as int);
    lemma_attr_entries_sorted(attrs, Some(kw_data_rmx()), attrs.len() as int);
    if kids.len() > 0 {
        lemma_insert_then_get(own, kw_children(), Json::Array(kids), attrs[i].0@);
    }
}

proof fn lemma_item_own_name(nodes: Seq<NodeRecord>, c: int, k: Seq<char>, j: int)
    requires
        0 <= c < nodes.len(),
        c + 1 <= j <= nodes.len(),
        rmx_name(nodes[c]) == Some(k),
        forall|d: int|
            c < d < j && rmx_name(#[trigger] nodes[d]) == Some(k) ==> under_list(nodes, c + 1, d),
    ensures
        entries_sorted(item_entries(nodes, c, j)),
        entries_get(item_entries(nodes, c, j), k) == Some(node_value(nodes, c)),
    decreases j,
{
    if j == c + 1 {
        lemma_insert_then_get(Seq::empty(), k, node_value(nodes, c), k);
    } else {
        lemma_item_own_name(nodes, c, k, j - 1);
        let prev = item_entries(nodes, c, j - 1);
        let d = j - 1;
        if let Some(name) = rmx_name(nodes[d]) {
            if !under_list(nodes, c + 1, d) {
                assert(name != k);
                lemma_insert_then_get(prev, name, node_value(nodes, d), k);
            }
        }
    }
}

proof fn lemma_list_holds_item(nodes: Seq<NodeRecord>, x: int, c: int, j: int)
    requires
        0 <= x < nodes.len(),
        is_element_child(nodes, x, c),
        item_entries(nodes, c, subtree_end(nodes, c)).len() > 0,
        c < j <= nodes.len(),
    ensures
        exists|i: int|
            0 <= i < list_items(nodes, x, j).len() && #[trigger] list_items(nodes, x, j)[i]
                == Json::Object(item_entries(nodes, c, subtree_end(nodes, c))),
    decreases j,
{
    let item = item_entries(nodes, c, subtree_end(nodes, c));
    let prev = list_items(nodes, x, j - 1);
    if j == c + 1 {
        assert(list_items(nodes, x, j) == prev.push(Json::Object(item)));
        assert(list_items(nodes, x, j)[prev.len() as int] == Json::Object(item));
    } else {
        lemma_list_holds_item(nodes, x, c, j - 1);
        let i = choose|i: int|
            0 <= i < prev.len() && #[trigger] prev[i] == Json::Object(item);
        assert(list_items(nodes, x, j)[i] == Json::Object(item));
    }
}

/// A list item element that itself carries `rmx-name` gives its item that
/// key, with the value extracted from the element (unless a named node inside
/// the item, outside its lists, has the same name): the list's array holds
/// such an item.
pub proof fn law_item_keeps_own_name(nodes: Seq<NodeRecord>, x: int, c: int, k: Seq<char>)
    requires
        0 <= x < nodes.len(),
        rmx_type(nodes[x]) == kw_list(),
        is_element_child(nodes, x, c),
        rmx_name(nodes[c]) == Some(k),
        forall|d: int|
            c < d < subtree_end(nodes, c) && rmx_name(#[trigger] nodes[d]) == Some(k) ==> under_list(
                nodes,
                c + 1,
                d,
            ),
    ensures
        node_value(nodes, x) matches Json::Array(items) && exists|i: int|
            0 <= i < items.len() && (#[trigger] items[i] matches Json::Object(item) && entries_get(
                item,
                k,
            ) == Some(node_value(nodes, c))),
{
    lemma_subtree_end(nodes, x);
    lemma_subtree_end(nodes, c);
    let end = subtree_end(nodes, c);
    lemma_item_own_name(nodes, c, k, end);
    let item = item_entries(nodes, c, end);
    assert(item.len() > 0);
    lemma_list_holds_item(nodes, x, c, subtree_end(nodes, x));
    let items = list_items(nodes, x, subtree_end(nodes, x));
    let i = choose|i: int| 0 <= i < items.len() && #[trigger] items[i] == Json::Object(item);
    assert(items[i] matches Json::Object(it) && entries_get(it, k) == Some(node_value(nodes, c)));
    assert(kw_list()[0] != kw_text()[0]);
    assert(kw_list()[0] != kw_image()[0]);
    assert(node_value(nodes, x) == Json::Array(items));
    let nv = node_value(nodes, x)->Array_0;
    assert(nv[i] == items[i]);
    assert(0 <= i < nv.len() && (nv[i] matches Json::Object(it) && entries_get(it, k) == Some(
        node_value(nodes, c),
    )));
}

proof fn lemma_top_entries_sorted(nodes: Seq<NodeRecord>, j: int)
    ensures
        entries_sorted(top_entries(nodes, j)),
    decreases j,
{
    if j > 0 && j <= nodes.len() {
        lemma_top_entries_sorted(nodes, j - 1);
        let d = j - 1;
        if let Some(name) = rmx_name(nodes[d]) {
            lemma_insert_then_get(top_entries(nodes, j - 1), name, node_value(nodes, d), name);
        }
    }
}

proof fn lemma_component_entries_sorted(nodes: Seq<NodeRecord>, base: Seq<(Seq<char>, Json)>, j: int)
    requires
        entries_sorted(base),
    ensures
        entries_sorted(component_entries(nodes, base, j)),
    decreases j,
{
    if j > 0 && j <= nodes.len() {
        lemma_component_entries_sorted(nodes, base, j - 1);
        let d = j - 1;
        if let Some(name) = node_attr(nodes[d], kw_data_rmx()) {
            lemma_insert_then_get(
                component_entries(nodes, base, j - 1),
                name,
                component_value(nodes, d),
                name,
            );
        }
    }
}

/// The extracted data is an object with its keys in order, each once.
pub proof fn law_document_sorted(nodes: Seq<NodeRecord>)
    ensures
        document_value(nodes) is Object,
        entries_sorted(document_value(nodes)->Object_0),
{
    lemma_top_entries_sorted(nodes, nodes.len() as int);
    lemma_component_entries_sorted(nodes, top_entries(nodes, nodes.len() as int), nodes.len() as int);
}

/// A web component gives the value under its `data-rmx` name unless a later
/// component has the same name.
pub proof fn law_component_wins(nodes: Seq<NodeRecord>, d: int, k: Seq<char>)
    requires
        0 <= d < nodes.len(),
        node_attr(nodes[d], kw_data_rmx()) == Some(k),
        forall|e: int| d < e < nodes.len() ==> node_attr(#[trigger] nodes[e], kw_data_rmx()) != Some(k),
    ensures
        json_get(document_value(nodes), k) == Some(component_value(nodes, d)),
{
    let base = top_entries(nodes, nodes.len() as int);
    lemma_top_entries_sorted(nodes, nodes.len() as int);
    lemma_component_wins_upto(nodes, base, d, k, nodes.len() as int);
}

proof fn lemma_component_wins_upto(
    nodes: Seq<NodeRecord>,
    base: Seq<(Seq<char>, Json)>,
    d: int,
    k: Seq<char>,
    j: int,
)
    requires
        entries_sorted(base),
        0 <= d < j <= nodes.len(),
        node_attr(nodes[d], kw_data_rmx()) == Some(k),
        forall|e: int| d < e < nodes.len() ==> node_attr(#[trigger] nodes[e], kw_data_rmx()) != Some(k),
    ensures
        entries_get(component_entries(nodes, base, j), k) == Some(component_value(nodes, d)),
    decreases j,
{
    lemma_component_entries_sorted(nodes, base, j - 1);
    let prev = component_entries(nodes, base, j - 1);
    let e = j - 1;
    if e == d {
        lemma_insert_then_get(prev, k, component_value(nodes, d), k);
    } else {
        lemma_component_wins_upto(nodes, base, d, k, j - 1);
        if let Some(name) = node_attr(nodes[e], kw_data_rmx()) {
            lemma_insert_then_get(prev, name, component_value(nodes, e), k);
        }
    }
}

/// A named node outside every list gives the value under its name, unless a
/// later such node has the same name or a web component takes the name.
pub proof fn law_named_wins(nodes: Seq<NodeRecord>, d: int, k: Seq<char>)
    requires
        0 <= d < nodes.len(),
        rmx_name(nodes[d]) == Some(k),
        !under_list(nodes, 0, d),
        forall|e: int|
            d < e < nodes.len() ==> !(rmx_name(#[trigger] nodes[e]) == Some(k) && !under_list(
                nodes,
                0,
                e,
            )),
        forall|e: int| 0 <= e < nodes.len() ==> node_attr(#[trigger] nodes[e], kw_data_rmx()) != Some(k),
    ensures
        json_get(document_value(nodes), k) == Some(node_value(nodes, d)),
{
    lemma_named_wins_upto(nodes, d, k, nodes.len() as int);
    let base = top_entries(nodes, nodes.len() as int);
    lemma_top_entries_sorted(nodes, nodes.len() as int);
    lemma_components_keep(nodes, base, k, nodes.len() as int);
}

proof fn lemma_named_wins_upto(nodes: Seq<NodeRecord>, d: int, k: Seq<char>, j: int)
    requires
        0 <= d < j <= nodes.len(),
        rmx_name(nodes[d]) == Some(k),
        !under_list(nodes, 0, d),
        forall|e: int|
            d < e < nodes.len() ==> !(rmx_name(#[trigger] nodes[e]) == Some(k) && !under_list(
                nodes,
                0,
                e,
            )),
    ensures
        entries_get(top_entries(nodes, j), k) == Some(node_value(nodes, d)),
    decreases j,
{
    lemma_top_entries_sorted(nodes, j - 1);
    let prev = top_entries(nodes, j - 1);
    let e = j - 1;
    if e == d {
        lemma_insert_then_get(prev, k, node_value(nodes, d), k);
    } else {
        lemma_named_wins_upto(nodes, d, k, j - 1);
        if let Some(name) = rmx_name(nodes[e]) {
            if !under_list(nodes, 0, e) {
                lemma_insert_then_get(prev, name, node_value(nodes, e), k);
            }
        }
    }
}

proof fn lemma_components_keep(nodes: Seq<NodeRecord>, base: Seq<(Seq<char>, Json)>, k: Seq<char>, j: int)
    requires
        entries_sorted(base),
        forall|e: int| 0 <= e < nodes.len() ==> node_attr(#[trigger] nodes[e], kw_data_rmx()) != Some(k),
    ensures
        entries_get(component_entries(nodes, base, j), k) == entries_get(base, k),
    decreases j,
{
    if j > 0 && j <= nodes.len() {
        lemma_components_keep(nodes, base, k, j - 1);
        lemma_component_entries_sorted(nodes, base, j - 1);
        if let Some(name) = node_attr(nodes[j - 1], kw_data_rmx()) {
            let prev = component_entries(nodes, base, j - 1);
            lemma_insert_then_get(prev, name, component_value(nodes, j - 1), k);
        }
    }
}

/// The node at some `d` outside every list has the `rmx-name` `k`.
pub open spec fn names_top_node(nodes: Seq<NodeRecord>, k: Seq<char>) -> bool {
    exists|d: int|
        0 <= d < nodes.len() && rmx_name(#[trigger] nodes[d]) == Some(k) && !under_list(nodes, 0, d)
}

/// The node at some `d` has the `data-rmx` name `k`.
pub open spec fn names_component(nodes: Seq<NodeRecord>, k: Seq<char>) -> bool {
    exists|d: int| 0 <= d < nodes.len() && node_attr(#[trigger] nodes[d], kw_data_rmx()) == Some(k)
}

proof fn lemma_top_keys(nodes: Seq<NodeRecord>, j: int)
    ensures
        forall|i: int|
            0 <= i < top_entries(nodes, j).len() ==> names_top_node(
                nodes,
                #[trigger] top_entries(nodes, j)[i].0,
            ),
    decreases j,
{
    if j > 0 && j <= nodes.len() {
        lemma_top_keys(nodes, j - 1);
        let prev = top_entries(nodes, j - 1);
        let d = j - 1;
        if let Some(name) = rmx_name(nodes[d]) {
            if !under_list(nodes, 0, d) {
                assert forall|i: int| 0 <= i < top_entries(nodes, j).len() implies names_top_node(
                    nodes,
                    #[trigger] top_entries(nodes, j)[i].0,
                ) by {
                    lemma_insert_keys(prev, name, node_value(nodes, d), i);
                    if top_entries(nodes, j)[i].0 != name {
                        let key = top_entries(nodes, j)[i].0;
                        let k = choose|k: int| 0 <= k < prev.len() && prev[k].0 == key;
                        assert(names_top_node(nodes, prev[k].0));
                    }
                }
            }
        }
    }
}

proof fn lemma_component_keys(nodes: Seq<NodeRecord>, base: Seq<(Seq<char>, Json)>, j: int)
    ensures
        forall|i: int|
            0 <= i < component_entries(nodes, base, j).len() ==> {
                let k = (#[trigger] component_entries(nodes, base, j)[i]).0;
                names_component(nodes, k) || exists|b: int| 0 <= b < base.len() && base[b].0 == k
            },
    decreases j,
{
    if j > 0 && j <= nodes.len() {
        lemma_component_keys(nodes, base, j - 1);
        let prev = component_entries(nodes, base, j - 1);
        let d = j - 1;
        if let Some(name) = node_attr(nodes[d], kw_data_rmx()) {
            assert forall|i: int| 0 <= i < component_entries(nodes, base, j).len() implies {
                let k = (#[trigger] component_entries(nodes, base, j)[i]).0;
                names_component(nodes, k) || exists|b: int| 0 <= b < base.len() && base[b].0 == k
            } by {
                lemma_insert_keys(prev, name, component_value(nodes, d), i);
                let k = component_entries(nodes, base, j)[i].0;
                if k != name {
                    let m = choose|m: int| 0 <= m < prev.len() && prev[m].0 == k;
                    assert(prev[m] == component_entries(nodes, base, j - 1)[m]);
                }
            }
        }
    }
}

/// Only annotations give data: each key of the extracted object is the
/// `rmx-name` of a node outside every list or the `data-rmx` name of a node.
pub proof fn law_document_keys(nodes: Seq<NodeRecord>, k: Seq<char>)
    ensures
        json_get(document_value(nodes), k) is Some ==> names_top_node(nodes, k) || names_component(
            nodes,
            k,
        ),
{
    let n = nodes.len() as int;
    let top = top_entries(nodes, n);
    let all = component_entries(nodes, top, n);
    lemma_top_keys(nodes, n);
    lemma_component_keys(nodes, top, n);
    lemma_get_some(all, k);
    if json_get(document_value(nodes), k) is Some {
        let i = choose|i: int| 0 <= i < all.len() && (#[trigger] all[i]).0 == k;
        assert(all[i] == component_entries(nodes, top, n)[i]);
        if !names_component(nodes, k) {
            let b = choose|b: int| 0 <= b < top.len() && top[b].0 == k;
            assert(top[b] == top_entries(nodes, n)[b]);
        }
    }
}

proof fn lemma_top_has(nodes: Seq<NodeRecord>, d: int, k: Seq<char>, j: int)
    requires
        0 <= d < j <= nodes.len(),
        rmx_name(nodes[d]) == Some(k),
        !under_list(nodes, 0, d),
    ensures
        entries_get(top_entries(nodes, j), k) is Some,
    decreases j,
{
    lemma_top_entries_sorted(nodes, j - 1);
    let prev = top_entries(nodes, j - 1);
    let e = j - 1;
    if e == d {
        lemma_insert_then_get(prev, k, node_value(nodes, d), k);
    } else {
        lemma_top_has(nodes, d, k, j - 1);
        if let Some(name) = rmx_name(nodes[e]) {
            if !under_list(nodes, 0, e) {
                lemma_insert_then_get(prev, name, node_value(nodes, e), k);
            }
        }
    }
}

proof fn lemma_components_have(
    nodes: Seq<NodeRecord>,
    base: Seq<(Seq<char>, Json)>,
    k: Seq<char>,
    j: int,
)
    requires
        entries_sorted(base),
        j <= nodes.len(),
        entries_get(base, k) is Some || exists|d: int|
            0 <= d < j && d < nodes.len() && node_attr(#[trigger] nodes[d], kw_data_rmx()) == Some(k),
    ensures
        entries_get(component_entries(nodes, base, j), k) is Some,
    decreases j,
{
    if j > 0 && j <= nodes.len() {
        lemma_component_entries_sorted(nodes, base, j - 1);
        let prev = component_entries(nodes, base, j - 1);
        let e = j - 1;
        if node_attr(nodes[e], kw_data_rmx()) == Some(k) {
            lemma_insert_then_get(prev, k, component_value(nodes, e), k);
        } else {
            lemma_components_have(nodes, base, k, j - 1);
            if let Some(name) = node_attr(nodes[e], kw_data_rmx()) {
                lemma_insert_then_get(prev, name, component_value(nodes, e), k);
            }
        }
    }
}

/// Every annotation gives a key: the `rmx-name` of each node outside every
/// list and the `data-rmx` name of each node are keys of the extracted object.
pub proof fn law_document_has_names(nodes: Seq<NodeRecord>, k: Seq<char>)
    ensures
        names_top_node(nodes, k) || names_component(nodes, k) ==> json_get(
            document_value(nodes),
            k,
        ) is Some,
{
    let n = nodes.len() as int;
    let top = top_entries(nodes, n);
    lemma_top_entries_sorted(nodes, n);
    if names_top_node(nodes, k) {
        let d = choose|d: int|
            0 <= d < nodes.len() && rmx_name(#[trigger] nodes[d]) == Some(k) && !under_list(
                nodes,
                0,
                d,
            );
        lemma_top_has(nodes, d, k, n);
        lemma_components_have(nodes, top, k, n);
    } else if names_component(nodes, k) {
        lemma_components_have(nodes, top, k, n);
    }
}

// ---------------------------------------------------------------------------
// Literals
// ---------------------------------------------------------------------------
pub(crate) fn lit_rmx_name() -> (r: &'static str)
    ensures
        r@ == kw_rmx_name(),
{
    proof {
        reveal_strlit("rmx-name");
    }
    "rmx-name"
}

pub(crate) fn lit_rmx_type() -> (r: &'static str)
    ensures
        r@ == kw_rmx_type(),
{
    proof {
        reveal_strlit("rmx-type");
    }
    "rmx-type"
}

pub(crate) fn lit_data_rmx() -> (r: &'static str)
    ensures
        r@ == kw_data_rmx(),
{
    proof {
        reveal_strlit("data-rmx");
    }
    "data-rmx"
}

pub(crate) fn lit_text() -> (r: &'static str)
    ensures
        r@ == kw_text(),
{
    proof {
        reveal_strlit("text");
    }
    "text"
}

pub(crate) fn lit_image() -> (r: &'static str)
    ensures
        r@ == kw_image(),
{
    proof {
        reveal_strlit("image");
    }
    "image"
}

pub(crate) fn lit_list() -> (r: &'static str)
    ensures
        r@ == kw_list(),
{
    proof {
        reveal_strlit("list");
    }
    "list"
}

pub(crate) fn lit_src() -> (r: &'static str)
    ensures
        r@ == kw_src(),
{
    proof {
        reveal_strlit("src");
    }
    "src"
}

pub(crate) fn lit_attr_prefix() -> (r: &'static str)
    ensures
        r@ == kw_attr_prefix(),
{
    proof {
        reveal_strlit("attr:");
    }
    "attr:"
}

pub(crate) fn lit_children() -> (r: &'static str)
    ensures
        r@ == kw_children(),
{
    proof {
        reveal_strlit("children");
    }
    "children"
}

// ---------------------------------------------------------------------------
// Extraction
// ---------------------------------------------------------------------------
/// Whether the node is selected by `[rmx-type="list"]`.
pub fn is_list_node(n: &NodeRecord) -> (r: bool)
    ensures
        r == is_list(*n),
{
    match get_attr(n, lit_rmx_type()) {
        Some(t) => str_equal(t.as_str(), lit_list()),
        None => false,
    }
}

/// The extraction type of a node (`text` when `rmx-type` is missing or empty).
pub fn type_of(n: &NodeRecord) -> (r: String)
    ensures
        r@ == rmx_type(*n),
{
    match get_attr(n, lit_rmx_type()) {
        Some(t) => if t.as_str().is_empty() {
            lit_text().to_owned()
        } else {
            t.clone()
        },
        None => lit_text().to_owned(),
    }
}

/// The attribute `name` of a node as JSON: its text, or `null`.
pub fn extract_attr(n: &NodeRecord, name: &str) -> (r: JsonValue)
    ensures
        r.model() == attr_json(*n, name@),
{
    match get_attr(n, name) {
        Some(v) => JsonValue::Str(v.clone()),
        None => JsonValue::Null,
    }
}

/// The trimmed text of a node.
pub fn extract_text(n: &NodeRecord) -> (r: JsonValue)
    ensures
        r.model() == text_json(*n),
{
    JsonValue::Str(trim(n.text.as_str()))
}

/// The value of the node at `x`, by its extraction type.
pub fn extract_value(nodes: &Vec<NodeRecord>, x: usize) -> (r: JsonValue)
    requires
        x < nodes@.len(),
    ensures
        r.model() == node_value(nodes@, x as int),
    decreases nodes@.len() - x, 2int, 0int,
{
    let n = &nodes[x];
    let t = type_of(n);
    if str_equal(t.as_str(), lit_text()) {
        extract_text(n)
    } else if str_equal(t.as_str(), lit_image()) {
        extract_attr(n, lit_src())
    } else if str_equal(t.as_str(), lit_list()) {
        let items = extract_list(nodes, x);
        proof {
            lemma_array_model(items);
        }
        JsonValue::Array(items)
    } else {
        let cs = chars_of(t.as_str());
        if starts_with(&cs, lit_attr_prefix()) {
            let name = string_from_range(&cs, 5, cs.len());
            assert(name@ =~= t@.skip(5));
            extract_attr(n, name.as_str())
        } else {
            extract_text(n)
        }
    }
}

/// The items of the list at `x`: one per element child whose item object is
/// not empty.
pub fn extract_list(nodes: &Vec<NodeRecord>, x: usize) -> (r: Vec<JsonValue>)
    requires
        x < nodes@.len(),
    ensures
        values_model(r@) == list_items(nodes@, x as int, subtree_end(nodes@, x as int)),
    decreases nodes@.len() - x, 1int, 0int,
{
    let end = find_subtree_end(nodes, x);
    let depth = nodes[x].depth;
    let mut items: Vec<JsonValue> = Vec::new();
    let mut j = x + 1;
    while j < end
        invariant
            x < j <= end <= nodes@.len(),
            end == subtree_end(nodes@, x as int),
            depth == nodes@[x as int].depth,
            values_model(items@) == list_items(nodes@, x as int, j as int),
        decreases end - j,
    {
        let ghost before = items@;
        if nodes[j].element && depth < usize::MAX && nodes[j].depth == depth + 1 {
            let item = extract_list_item(nodes, j);
            if item.len() > 0 {
                proof {
                    lemma_object_model(item);
                }
                items.push(JsonValue::Object(item));
                assert(values_model(items@) =~= values_model(before).push(
                    Json::Object(entries_model(item@)),
                ));
            }
        }
        j = j + 1;
    }
    items
}

/// The object of the list item at `c`.
pub fn extract_list_item(nodes: &Vec<NodeRecord>, c: usize) -> (r: Vec<(String, JsonValue)>)
    requires
        c < nodes@.len(),
    ensures
        entries_model(r@) == item_entries(nodes@, c as int, subtree_end(nodes@, c as int)),
    decreases nodes@.len() - c, 3int, 0int,
{
    let end = find_subtree_end(nodes, c);
    let mut item: Vec<(String, JsonValue)> = Vec::new();
    if let Some(name) = get_attr(&nodes[c], lit_rmx_name()) {
        let v = extract_value(nodes, c);
        object_insert(&mut item, name.clone(), v);
    }
    assert(entries_model(item@) == item_entries(nodes@, c as int, c + 1));
    // `reach`: the furthest end of the subtree of a list met so far inside the item
    let mut reach: usize = 0;
    let mut d = c + 1;
    while d < end
        invariant
            c < d <= end <= nodes@.len(),
            end == subtree_end(nodes@, c as int),
            entries_model(item@) == item_entries(nodes@, c as int, d as int),
            forall|k: int|
                c + 1 <= k < d && is_list(#[trigger] nodes@[k]) ==> subtree_end(nodes@, k) <= reach,
            reach > 0 ==> exists|k: int|
                c + 1 <= k < d && is_list(#[trigger] nodes@[k]) && subtree_end(nodes@, k) == reach,
        decreases end - d,
    {
        proof {
            if reach > d {
                let k = choose|k: int|
                    c + 1 <= k < d && is_list(#[trigger] nodes@[k]) && subtree_end(nodes@, k)
                        == reach;
                assert(under_list(nodes@, c + 1, d as int));
            } else {
                assert(!under_list(nodes@, c + 1, d as int));
            }
        }
        if let Some(name) = get_attr(&nodes[d], lit_rmx_name()) {
            if reach <= d {
                let v = extract_value(nodes, d);
                object_insert(&mut item, name.clone(), v);
            }
        }
        if is_list_node(&nodes[d]) {
            let e = find_subtree_end(nodes, d);
            if e > reach {
                reach = e;
            }
        }
        d = d + 1;
    }
    item
}

/// The object of the web component at `x`.
pub fn extract_web_component(nodes: &Vec<NodeRecord>, x: usize) -> (r: JsonValue)
    requires
        x < nodes@.len(),
    ensures
        r.model() == component_value(nodes@, x as int),
{
    let own = attrs_object(&nodes[x].attrs, Some(lit_data_rmx()));
    let end = find_subtree_end(nodes, x);
    let depth = nodes[x].depth;
    let mut kids: Vec<JsonValue> = Vec::new();
    let mut j = x + 1;
    while j < end
        invariant
            x < j <= end <= nodes@.len(),
            end == subtree_end(nodes@, x as int),
            depth == nodes@[x as int].depth,
            values_model(kids@) == component_children(nodes@, x as int, j as int),
        decreases end - j,
    {
        let ghost before = kids@;
        if nodes[j].element && depth < usize::MAX && nodes[j].depth == depth + 1 && nodes[j].attrs.len()
            > 0 {
            let obj = attrs_object(&nodes[j].attrs, None);
            proof {
                lemma_object_model(obj);
            }
            kids.push(JsonValue::Object(obj));
            assert(values_model(kids@) =~= values_model(before).push(
                Json::Object(entries_model(obj@)),
            ));
        }
        j = j + 1;
    }
    let mut entries = own;
    if kids.len() > 0 {
        proof {
            lemma_array_model(kids);
        }
        object_insert(&mut entries, lit_children().to_owned(), JsonValue::Array(kids));
    }
    proof {
        lemma_object_model(entries);
    }
    JsonValue::Object(entries)
}

/// Attributes as string entries of an object, leaving out `skip`.
pub fn attrs_object(attrs: &Vec<(String, String)>, skip: Option<&str>) -> (r: Vec<(String, JsonValue)>)
    ensures
        entries_model(r@) == attr_entries(
            attrs@,
            match skip {
                Some(s) => Some(s@),
                None => None,
            },
            attrs@.len() as int,
        ),
{
    let ghost sk = match skip {
        Some(s) => Some(s@),
        None => None,
    };
    let mut out: Vec<(String, JsonValue)> = Vec::new();
    let mut i: usize = 0;
    while i < attrs.len()
        invariant
            i <= attrs@.len(),
            sk == match skip {
                Some(s) => Some(s@),
                None => None,
            },
            entries_model(out@) == attr_entries(attrs@, sk, i as int),
        decreases attrs@.len() - i,
    {
        let keep = match skip {
            Some(s) => !str_equal(attrs[i].0.as_str(), s),
            None => true,
        };
        if keep {
            object_insert(&mut out, attrs[i].0.clone(), JsonValue::Str(attrs[i].1.clone()));
        }
        i = i + 1;
    }
    out
}

/// The data of a described document (see `document_value`).
pub fn extract_from_nodes(nodes: &Vec<NodeRecord>) -> (r: JsonValue)
    ensures
        r.model() == document_value(nodes@),
{
    let len = nodes.len();
    let mut entries: Vec<(String, JsonValue)> = Vec::new();
    let mut reach: usize = 0;
    let mut d: usize = 0;
    while d < len
        invariant
            d <= len == nodes@.len(),
            entries_model(entries@) == top_entries(nodes@, d as int),
            forall|k: int|
                0 <= k < d && is_list(#[trigger] nodes@[k]) ==> subtree_end(nodes@, k) <= reach,
            reach > 0 ==> exists|k: int|
                0 <= k < d && is_list(#[trigger] nodes@[k]) && subtree_end(nodes@, k) == reach,
        decreases len - d,
    {
        proof {
            if reach > d {
                let k = choose|k: int|
                    0 <= k < d && is_list(#[trigger] nodes@[k]) && subtree_end(nodes@, k) == reach;
                assert(under_list(nodes@, 0, d as int));
            } else {
                assert(!under_list(nodes@, 0, d as int));
            }
        }
        if let Some(name) = get_attr(&nodes[d], lit_rmx_name()) {
            if reach <= d {
                let v = extract_value(nodes, d);
                object_insert(&mut entries, name.clone(), v);
            }
        }
        if is_list_node(&nodes[d]) {
            let e = find_subtree_end(nodes, d);
            if e > reach {
                reach = e;
            }
        }
        d = d + 1;
    }
    let ghost top = entries_model(entries@);
    let mut d: usize = 0;
    while d < len
        invariant
            d <= len == nodes@.len(),
            top == top_entries(nodes@, len as int),
            entries_model(entries@) == component_entries(nodes@, top, d as int),
        decreases len - d,
    {
        if let Some(name) = get_attr(&nodes[d], lit_data_rmx()) {
            let v = extract_web_component(nodes, d);
            object_insert(&mut entries, name.clone(), v);
        }
        d = d + 1;
    }
    proof {
        lemma_object_model(entries);
    }
    JsonValue::Object(entries)
}

/// Extracts the data that the annotations of `html` mark: `extract_from_nodes`
/// on the nodes that `dom_query` parses out of `html`.
pub fn extract_data(html: &str) -> (r: JsonValue)
    ensures
        r.model() == document_value(parsed_nodes(html@)),
{
    let nodes = describe_html(html);
    extract_from_nodes(&nodes)
}

} // verus!
