//! Rendering: filling the annotated places of an HTML template with JSON data.
//!
//! Each pass (web components, lists, plain values) reads the document as it
//! stands when the pass begins, plans its edits from that reading, and then
//! makes them with `dom_query`. An edit of one node never changes what a later
//! edit of the same pass reads: every node is read once, and an edit changes
//! only the edited node and what it holds.
use crate::dom::{
    append_html, attr_edit_effect, content_effect, content_layout, document_node, same_node, same_shape, attr_pairs, attrs_set, describe_page, described, find_subtree_end, get_attr, is_element_child, node_attr,
    lemma_attrs_set_lookup, lemma_lookup_pairs, lemma_subtree_end, node_html, pair_lookup, pairs_model, parse_page, print_page, printed, printed_node, remove_element_children,
    same_but_attrs, select_page, selected, set_attr, set_html, subtree_end, Edit, NodeRecord, Page,
};
use crate::extract::{
    is_list, is_list_node, kw_attr_prefix, kw_children, kw_data_rmx, kw_image, kw_list, kw_src,
    kw_text, lit_attr_prefix, lit_children, lit_data_rmx, lit_image, lit_list, lit_rmx_name,
    lit_src, lit_text, read_attribute, rmx_name, rmx_type, type_of,
};
use crate::json::{
    object_get, entries_get, entries_model, json_get, json_text, lemma_array_model, lemma_object_model,
    str_equal, to_json_text, values_model, Json, JsonValue,
};
use crate::text::{chars_of, has_prefix, starts_with, string_from_range};
use dom_query::NodeId;
use vstd::prelude::*;

verus! {

/// One planned edit, on nodes named by their place in the description.
pub enum Step {
    SetAttr { node: int, name: Seq<char>, value: Seq<char> },
    SetHtml { node: int, html: Seq<char> },
    /// Replace the element children of `node` by one copy of the element
    /// `template` per item, each with the item's attributes set on its
    /// elements named `tag`.
    FillComponent {
        node: int,
        template: int,
        tag: Seq<char>,
        attr_lists: Seq<Seq<(Seq<char>, Seq<char>)>>,
    },
    /// Replace the element children of `node` by one copy of the element
    /// `template` per item, each rendered with the item as its data.
    FillList { node: int, template: int, items: Seq<Json> },
}

/// One planned edit.
pub enum RenderStep {
    SetAttr { node: usize, name: String, value: String },
    SetHtml { node: usize, html: String },
    FillComponent {
        node: usize,
        template: usize,
        tag: String,
        attr_lists: Vec<Vec<(String, String)>>,
    },
    FillList { node: usize, template: usize, items: Vec<JsonValue> },
}

impl RenderStep {
    pub open spec fn model(&self) -> Step {
        match self {
            RenderStep::SetAttr { node, name, value } => Step::SetAttr {
                node: *node as int,
                name: name@,
                value: value@,
            },
            RenderStep::SetHtml { node, html } => Step::SetHtml { node: *node as int, html: html@ },
            RenderStep::FillComponent { node, template, tag, attr_lists } => Step::FillComponent {
                node: *node as int,
                template: *template as int,
                tag: tag@,
                attr_lists: attr_lists@.map_values(|v: Vec<(String, String)>| pairs_model(v@)),
            },
            RenderStep::FillList { node, template, items } => Step::FillList {
                node: *node as int,
                template: *template as int,
                items: values_model(items@),
            },
        }
    }

    /// The nodes the step names are below `n`.
    pub open spec fn within(&self, n: int) -> bool {
        match self {
            RenderStep::SetAttr { node, .. } => *node < n,
            RenderStep::SetHtml { node, .. } => *node < n,
            RenderStep::FillComponent { node, template, .. } => *node < n && *template < n,
            RenderStep::FillList { node, template, .. } => *node < n && *template < n,
        }
    }
}

pub open spec fn steps_model(v: Seq<RenderStep>) -> Seq<Step> {
    v.map_values(|s: RenderStep| s.model())
}

/// The steps that `f` plans for the nodes before `j`, in document order.
pub open spec fn steps_upto(f: spec_fn(int) -> Seq<Step>, j: int) -> Seq<Step>
    decreases j,
{
    if j <= 0 {
        Seq::empty()
    } else {
        steps_upto(f, j - 1) + f(j - 1)
    }
}

/// The first element child of the node at `x`, searching from `j`.
pub open spec fn first_child_from(nodes: Seq<NodeRecord>, x: int, j: int) -> Option<int>
    decreases nodes.len() - j,
{
    if j >= nodes.len() || j >= subtree_end(nodes, x) {
        None
    } else if j > x && is_element_child(nodes, x, j) {
        Some(j)
    } else {
        first_child_from(nodes, x, j + 1)
    }
}

/// The first element child of the node at `x`.
pub open spec fn first_element_child(nodes: Seq<NodeRecord>, x: int) -> Option<int> {
    first_child_from(nodes, x, x + 1)
}

// ---------------------------------------------------------------------------
// Web components
// ---------------------------------------------------------------------------
/// The attributes a component gets from its object: each string entry but
/// `children`, in the order of the object.
pub open spec fn component_attr_steps(node: int, e: Seq<(Seq<char>, Json)>) -> Seq<Step>
    decreases e.len(),
{
    if e.len() == 0 {
        Seq::empty()
    } else {
        let prev = component_attr_steps(node, e.drop_last());
        let (k, v) = e.last();
        match v {
            Json::Str(s) => if k == kw_children() {
                prev
            } else {
                prev.push(Step::SetAttr { node, name: k, value: s })
            },
            _ => prev,
        }
    }
}

/// The string entries of an object, in order.
pub open spec fn string_entries(e: Seq<(Seq<char>, Json)>) -> Seq<(Seq<char>, Seq<char>)>
    decreases e.len(),
{
    if e.len() == 0 {
        Seq::empty()
    } else {
        let prev = string_entries(e.drop_last());
        match e.last().1 {
            Json::Str(s) => prev.push((e.last().0, s)),
            _ => prev,
        }
    }
}

/// For each item that is an object, its string entries; other items are left out.
pub open spec fn child_attr_lists(items: Seq<Json>) -> Seq<Seq<(Seq<char>, Seq<char>)>>
    decreases items.len(),
{
    if items.len() == 0 {
        Seq::empty()
    } else {
        let prev = child_attr_lists(items.drop_last());
        match items.last() {
            Json::Object(e) => prev.push(string_entries(e)),
            _ => prev,
        }
    }
}

/// The children of a component, when its object has a `children` array and
/// it has an element child to copy.
pub open spec fn component_children_steps(
    nodes: Seq<NodeRecord>,
    node: int,
    e: Seq<(Seq<char>, Json)>,
) -> Seq<Step> {
    match entries_get(e, kw_children()) {
        Some(Json::Array(items)) => match first_element_child(nodes, node) {
            Some(t) => if nodes[t].name@.len() > 0 {
                seq![
                    Step::FillComponent {
                        node,
                        template: t,
                        tag: nodes[t].name@,
                        attr_lists: child_attr_lists(items),
                    },
                ]
            } else {
                Seq::empty()
            },
            None => Seq::empty(),
        },
        _ => Seq::empty(),
    }
}

/// The steps for the node at `d` when it is a web component whose
/// `data-rmx` name has an object in `data`.
pub open spec fn component_steps_at(nodes: Seq<NodeRecord>, data: Json, d: int) -> Seq<Step> {
    match node_attr(nodes[d], kw_data_rmx()) {
        Some(name) => match json_get(data, name) {
            Some(Json::Object(e)) => component_attr_steps(d, e) + component_children_steps(
                nodes,
                d,
                e,
            ),
            _ => Seq::empty(),
        },
        None => Seq::empty(),
    }
}

pub open spec fn component_step_fn(nodes: Seq<NodeRecord>, data: Json) -> spec_fn(int) -> Seq<Step> {
    |d: int| component_steps_at(nodes, data, d)
}

/// The edits of the web-component pass.
pub open spec fn component_plan(nodes: Seq<NodeRecord>, data: Json) -> Seq<Step> {
    steps_upto(component_step_fn(nodes, data), nodes.len() as int)
}

// ---------------------------------------------------------------------------
// Lists
// ---------------------------------------------------------------------------
/// The step for the node at `d` when it is a named list whose name has an
/// array in `data` and it has an element child to copy.
pub open spec fn list_steps_at(nodes: Seq<NodeRecord>, data: Json, d: int) -> Seq<Step> {
    if !is_list(nodes[d]) {
        Seq::empty()
    } else {
        match rmx_name(nodes[d]) {
            Some(name) => match json_get(data, name) {
                Some(Json::Array(items)) => match first_element_child(nodes, d) {
                    Some(t) => seq![Step::FillList { node: d, template: t, items }],
                    None => Seq::empty(),
                },
                _ => Seq::empty(),
            },
            None => Seq::empty(),
        }
    }
}

pub open spec fn list_step_fn(nodes: Seq<NodeRecord>, data: Json) -> spec_fn(int) -> Seq<Step> {
    |d: int| list_steps_at(nodes, data, d)
}

/// The edits of the list pass.
pub open spec fn list_plan(nodes: Seq<NodeRecord>, data: Json) -> Seq<Step> {
    steps_upto(list_step_fn(nodes, data), nodes.len() as int)
}

// ---------------------------------------------------------------------------
// Plain values
// ---------------------------------------------------------------------------
/// The text a value is rendered as: a string as it is, `null` not at all,
/// anything else as its JSON text.
pub open spec fn render_string(v: Json) -> Option<Seq<char>> {
    match v {
        Json::Str(s) => Some(s),
        Json::Null => None,
        _ => Some(json_text(v)),
    }
}

/// The edit of a named node of type `t` that renders `s`: `image` sets `src`,
/// `attr:NAME` sets NAME, any other type replaces the content.
pub open spec fn value_step(d: int, t: Seq<char>, s: Seq<char>) -> Step {
    if t == kw_text() {
        Step::SetHtml { node: d, html: s }
    } else if t == kw_image() {
        Step::SetAttr { node: d, name: kw_src(), value: s }
    } else if has_prefix(t, kw_attr_prefix()) {
        Step::SetAttr { node: d, name: t.skip(5), value: s }
    } else {
        Step::SetHtml { node: d, html: s }
    }
}

/// The step for the named node at `d`, unless it is a list, its name has no
/// value in `data`, or the value is `null`.
pub open spec fn value_steps_at(nodes: Seq<NodeRecord>, data: Json, d: int) -> Seq<Step> {
    match rmx_name(nodes[d]) {
        Some(name) => {
            let t = rmx_type(nodes[d]);
            if t == kw_list() {
                Seq::empty()
            } else {
                match json_get(data, name) {
                    Some(v) => match render_string(v) {
                        Some(s) => seq![value_step(d, t, s)],
                        None => Seq::empty(),
                    },
                    None => Seq::empty(),
                }
            }
        },
        None => Seq::empty(),
    }
}

pub open spec fn value_step_fn(nodes: Seq<NodeRecord>, data: Json) -> spec_fn(int) -> Seq<Step> {
    |d: int| value_steps_at(nodes, data, d)
}

/// The edits of the plain-value pass.
pub open spec fn value_plan(nodes: Seq<NodeRecord>, data: Json) -> Seq<Step> {
    steps_upto(value_step_fn(nodes, data), nodes.len() as int)
}

/// Rendering writes where extraction reads: for a node that is not a list,
/// the edit sets the attribute that extraction takes the node's value from,
/// or replaces the content whose text extraction takes when it reads no
/// attribute.
pub proof fn law_render_writes_what_extraction_reads(nodes: Seq<NodeRecord>, d: int, s: Seq<char>)
    requires
        0 <= d < nodes.len(),
        rmx_type(nodes[d]) != kw_list(),
    ensures
        value_step(d, rmx_type(nodes[d]), s) == match read_attribute(rmx_type(nodes[d])) {
            Some(a) => Step::SetAttr { node: d, name: a, value: s },
            None => Step::SetHtml { node: d, html: s },
        },
{
}

// ---------------------------------------------------------------------------
// Planning
// ---------------------------------------------------------------------------
proof fn lemma_steps_push(s: Seq<RenderStep>, x: RenderStep)
    ensures
        steps_model(s.push(x)) == steps_model(s).push(x.model()),
{
    assert(steps_model(s.push(x)) =~= steps_model(s).push(x.model()));
}

/// The first element child of the node at `x`.
pub fn find_first_element_child(nodes: &Vec<NodeRecord>, x: usize) -> (r: Option<usize>)
    requires
        x < nodes@.len(),
    ensures
        match r {
            Some(t) => Some(t as int),
            None => None,
        } == first_element_child(nodes@, x as int),
        r matches Some(t) ==> t < nodes@.len(),
{
    let end = find_subtree_end(nodes, x);
    let depth = nodes[x].depth;
    let mut j = x + 1;
    while j < end
        invariant
            x < j <= end <= nodes@.len(),
            end == subtree_end(nodes@, x as int),
            depth == nodes@[x as int].depth,
            first_element_child(nodes@, x as int) == first_child_from(nodes@, x as int, j as int),
        decreases end - j,
    {
        if nodes[j].element && depth < usize::MAX && nodes[j].depth == depth + 1 {
            return Some(j);
        }
        j = j + 1;
    }
    None
}

/// The string entries of an object, in order.
pub fn object_strings(e: &Vec<(String, JsonValue)>) -> (r: Vec<(String, String)>)
    ensures
        pairs_model(r@) == string_entries(entries_model(e@)),
{
    let ghost m = entries_model(e@);
    let mut out: Vec<(String, String)> = Vec::new();
    let mut i: usize = 0;
    while i < e.len()
        invariant
            i <= e@.len(),
            m == entries_model(e@),
            pairs_model(out@) == string_entries(m.take(i as int)),
        decreases e@.len() - i,
    {
        let ghost before = out@;
        assert(m.take(i + 1).drop_last() =~= m.take(i as int));
        assert(m.take(i + 1).last() == m[i as int]);
        match &e[i].1 {
            JsonValue::Str(s) => {
                out.push((e[i].0.clone(), s.clone()));
                assert(pairs_model(out@) =~= pairs_model(before).push((e@[i as int].0@, s@)));
            },
            _ => {},
        }
        i = i + 1;
    }
    assert(m.take(e@.len() as int) =~= m);
    out
}

/// Appends the steps for the node at `d` in the web-component pass.
fn push_component_steps(
    nodes: &Vec<NodeRecord>,
    data: &JsonValue,
    d: usize,
    steps: &mut Vec<RenderStep>,
)
    requires
        d < nodes@.len(),
        forall|k: int|
            0 <= k < old(steps)@.len() ==> (#[trigger] old(steps)@[k]).within(nodes@.len() as int)
            && !(old(steps)@[k] is FillList),
    ensures
        steps_model(final(steps)@) == steps_model(old(steps)@) + component_steps_at(
            nodes@,
            data.model(),
            d as int,
        ),
        forall|k: int|
            0 <= k < final(steps)@.len() ==> (#[trigger] final(steps)@[k]).within(nodes@.len() as int)
            && !(final(steps)@[k] is FillList),
{
    let ghost start = steps@;
    let name = match get_attr(&nodes[d], lit_data_rmx()) {
        Some(n) => n,
        None => {
            assert(steps_model(steps@) =~= steps_model(start) + Seq::<Step>::empty());
            return;
        },
    };
    let e = match data.get(name.as_str()) {
        Some(JsonValue::Object(e)) => e,
        _ => {
            assert(steps_model(steps@) =~= steps_model(start) + Seq::<Step>::empty());
            return;
        },
    };
    proof {
        lemma_object_model(*e);
    }
    let ghost m = entries_model(e@);
    let mut i: usize = 0;
    while i < e.len()
        invariant
            i <= e@.len(),
            d < nodes@.len(),
            m == entries_model(e@),
            steps_model(steps@) == steps_model(start) + component_attr_steps(d as int, m.take(i as int)),
            forall|k: int| 0 <= k < steps@.len() ==> (#[trigger] steps@[k]).within(nodes@.len() as int)
                && !(steps@[k] is FillList),
        decreases e@.len() - i,
    {
        assert(m.take(i + 1).drop_last() =~= m.take(i as int));
        assert(m.take(i + 1).last() == m[i as int]);
        match &e[i].1 {
            JsonValue::Str(s) => {
                if !str_equal(e[i].0.as_str(), lit_children()) {
                    let ghost before = steps@;
                    let st = RenderStep::SetAttr { node: d, name: e[i].0.clone(), value: s.clone() };
                    steps.push(st);
                    proof {
                        lemma_steps_push(before, st);
                    }
                }
            },
            _ => {},
        }
        i = i + 1;
    }
    assert(m.take(e@.len() as int) =~= m);
    let ghost mid = steps@;
    match object_get(e, lit_children()) {
        Some(JsonValue::Array(items)) => {
            proof {
                lemma_array_model(*items);
            }
            match find_first_element_child(nodes, d) {
                Some(t) => {
                    if !nodes[t].name.as_str().is_empty() {
                        let mut lists: Vec<Vec<(String, String)>> = Vec::new();
                        let ghost im = values_model(items@);
                        let mut k: usize = 0;
                        while k < items.len()
                            invariant
                                k <= items@.len(),
                                im == values_model(items@),
                                lists@.map_values(|v: Vec<(String, String)>| pairs_model(v@))
                                    == child_attr_lists(im.take(k as int)),
                            decreases items@.len() - k,
                        {
                            let ghost before = lists@;
                            assert(im.take(k + 1).drop_last() =~= im.take(k as int));
                            assert(im.take(k + 1).last() == items@[k as int].model());
                            match &items[k] {
                                JsonValue::Object(ce) => {
                                    proof {
                                        lemma_object_model(*ce);
                                    }
                                    let strings = object_strings(ce);
                                    lists.push(strings);
                                    assert(lists@.map_values(
                                        |v: Vec<(String, String)>| pairs_model(v@),
                                    ) =~= before.map_values(
                                        |v: Vec<(String, String)>| pairs_model(v@),
                                    ).push(pairs_model(strings@)));
                                },
                                _ => {},
                            }
                            k = k + 1;
                        }
                        assert(im.take(items@.len() as int) =~= im);
                        let st = RenderStep::FillComponent {
                            node: d,
                            template: t,
                            tag: nodes[t].name.clone(),
                            attr_lists: lists,
                        };
                        steps.push(st);
                        proof {
                            lemma_steps_push(mid, st);
                        }
                    }
                },
                None => {},
            }
        },
        _ => {},
    }
    assert(steps_model(steps@) =~= steps_model(start) + component_steps_at(
        nodes@,
        data.model(),
        d as int,
    ));
}

/// The edits of the web-component pass over a described document.
pub fn plan_components(nodes: &Vec<NodeRecord>, data: &JsonValue) -> (r: Vec<RenderStep>)
    ensures
        steps_model(r@) == component_plan(nodes@, data.model()),
        forall|k: int| 0 <= k < r@.len() ==> (#[trigger] r@[k]).within(nodes@.len() as int)
            && !(r@[k] is FillList),
{
    let ghost f = component_step_fn(nodes@, data.model());
    let mut steps: Vec<RenderStep> = Vec::new();
    let mut d: usize = 0;
    while d < nodes.len()
        invariant
            d <= nodes@.len(),
            f == component_step_fn(nodes@, data.model()),
            steps_model(steps@) == steps_upto(f, d as int),
            forall|k: int| 0 <= k < steps@.len() ==> (#[trigger] steps@[k]).within(nodes@.len() as int)
                && !(steps@[k] is FillList),
        decreases nodes@.len() - d,
    {
        push_component_steps(nodes, data, d, &mut steps);
        d = d + 1;
    }
    steps
}

/// Appends the step for the node at `d` in the list pass.
fn push_list_steps(nodes: &Vec<NodeRecord>, data: &JsonValue, d: usize, steps: &mut Vec<RenderStep>)
    requires
        d < nodes@.len(),
        forall|k: int|
            0 <= k < old(steps)@.len() ==> (#[trigger] old(steps)@[k]).within(nodes@.len() as int),
    ensures
        steps_model(final(steps)@) == steps_model(old(steps)@) + list_steps_at(
            nodes@,
            data.model(),
            d as int,
        ),
        forall|k: int|
            0 <= k < final(steps)@.len() ==> (#[trigger] final(steps)@[k]).within(nodes@.len() as int),
{
    let ghost start = steps@;
    if is_list_node(&nodes[d]) {
        if let Some(name) = get_attr(&nodes[d], lit_rmx_name()) {
            if let Some(JsonValue::Array(items)) = data.get(name.as_str()) {
                proof {
                    lemma_array_model(*items);
                }
                if let Some(t) = find_first_element_child(nodes, d) {
                    let mut copies: Vec<JsonValue> = Vec::new();
                    let mut k: usize = 0;
                    while k < items.len()
                        invariant
                            k <= items@.len(),
                            copies@.len() == k,
                            forall|i: int|
                                0 <= i < k ==> (#[trigger] copies@[i]).model() == items@[i].model(),
                        decreases items@.len() - k,
                    {
                        copies.push(items[k].duplicate());
                        k = k + 1;
                    }
                    assert(values_model(copies@) =~= values_model(items@));
                    let st = RenderStep::FillList { node: d, template: t, items: copies };
                    steps.push(st);
                    proof {
                        lemma_steps_push(start, st);
                    }
                }
            }
        }
    }
    assert(steps_model(steps@) =~= steps_model(start) + list_steps_at(nodes@, data.model(), d as int));
}

/// The edits of the list pass over a described document.
pub fn plan_lists(nodes: &Vec<NodeRecord>, data: &JsonValue) -> (r: Vec<RenderStep>)
    ensures
        steps_model(r@) == list_plan(nodes@, data.model()),
        forall|k: int| 0 <= k < r@.len() ==> (#[trigger] r@[k]).within(nodes@.len() as int),
{
    let ghost f = list_step_fn(nodes@, data.model());
    let mut steps: Vec<RenderStep> = Vec::new();
    let mut d: usize = 0;
    while d < nodes.len()
        invariant
            d <= nodes@.len(),
            f == list_step_fn(nodes@, data.model()),
            steps_model(steps@) == steps_upto(f, d as int),
            forall|k: int| 0 <= k < steps@.len() ==> (#[trigger] steps@[k]).within(nodes@.len() as int),
        decreases nodes@.len() - d,
    {
        push_list_steps(nodes, data, d, &mut steps);
        d = d + 1;
    }
    steps
}

/// The text a value is rendered as (see `render_string`).
pub fn value_text(v: &JsonValue) -> (r: Option<String>)
    ensures
        match r {
            Some(s) => Some(s@),
            None => None,
        } == render_string(v.model()),
{
    match v {
        JsonValue::Str(s) => Some(s.clone()),
        JsonValue::Null => None,
        _ => Some(to_json_text(v)),
    }
}

/// The edit that renders `s` into the node at `d` of type `t`.
pub fn value_edit(d: usize, t: &String, s: String) -> (r: RenderStep)
    ensures
        r.model() == value_step(d as int, t@, s@),
        r is SetAttr || r is SetHtml,
        r.within(d + 1),
{
    if str_equal(t.as_str(), lit_text()) {
        RenderStep::SetHtml { node: d, html: s }
    } else if str_equal(t.as_str(), lit_image()) {
        RenderStep::SetAttr { node: d, name: lit_src().to_owned(), value: s }
    } else {
        let cs = chars_of(t.as_str());
        if starts_with(&cs, lit_attr_prefix()) {
            let name = string_from_range(&cs, 5, cs.len());
            assert(name@ =~= t@.skip(5));
            RenderStep::SetAttr { node: d, name, value: s }
        } else {
            RenderStep::SetHtml { node: d, html: s }
        }
    }
}

/// The edits of the plain-value pass over a described document.
pub fn plan_values(nodes: &Vec<NodeRecord>, data: &JsonValue) -> (r: Vec<RenderStep>)
    ensures
        steps_model(r@) == value_plan(nodes@, data.model()),
        forall|k: int| 0 <= k < r@.len() ==> (#[trigger] r@[k]).within(nodes@.len() as int) && (
        r@[k] is SetAttr || r@[k] is SetHtml),
{
    let ghost f = value_step_fn(nodes@, data.model());
    let mut steps: Vec<RenderStep> = Vec::new();
    let mut d: usize = 0;
    while d < nodes.len()
        invariant
            d <= nodes@.len(),
            f == value_step_fn(nodes@, data.model()),
            steps_model(steps@) == steps_upto(f, d as int),
            forall|k: int| 0 <= k < steps@.len() ==> (#[trigger] steps@[k]).within(nodes@.len() as int)
                && (steps@[k] is SetAttr || steps@[k] is SetHtml),
        decreases nodes@.len() - d,
    {
        let ghost before = steps@;
        if let Some(name) = get_attr(&nodes[d], lit_rmx_name()) {
            let t = type_of(&nodes[d]);
            if !str_equal(t.as_str(), lit_list()) {
                if let Some(v) = data.get(name.as_str()) {
                    if let Some(s) = value_text(v) {
                        let st = value_edit(d, &t, s);
                        steps.push(st);
                        proof {
                            lemma_steps_push(before, st);
                        }
                    }
                }
            }
        }
        assert(steps_model(steps@) =~= steps_model(before) + value_steps_at(
            nodes@,
            data.model(),
            d as int,
        ));
        d = d + 1;
    }
    steps
}

// ---------------------------------------------------------------------------
// What the passes do to the document
// ---------------------------------------------------------------------------
/// The node ids of the page parsed from `src` and edited by `h`.
pub open spec fn page_ids(src: Seq<char>, h: Seq<Edit>) -> Seq<NodeId> {
    described(src, h).0
}

/// The description of the page parsed from `src` and edited by `h`.
pub open spec fn page_nodes(src: Seq<char>, h: Seq<Edit>) -> Seq<NodeRecord> {
    described(src, h).1
}

/// Setting each attribute, in order, on each of the `matched` elements.
pub open spec fn copy_attr_edits(matched: Seq<NodeId>, attrs: Seq<(Seq<char>, Seq<char>)>) -> Seq<
    Edit,
>
    decreases attrs.len(),
{
    if attrs.len() == 0 {
        Seq::empty()
    } else {
        copy_attr_edits(matched, attrs.drop_last()) + matched.map_values(
            |m: NodeId| Edit::SetAttr { node: m, name: attrs.last().0, value: attrs.last().1 },
        )
    }
}

/// The HTML of one child of a web component: the `template` parsed as a
/// document, the attributes set on the elements that the selector `tag`
/// selects, and the first of them printed (nothing when none is selected).
pub open spec fn component_copy(
    template: Seq<char>,
    tag: Seq<char>,
    attrs: Seq<(Seq<char>, Seq<char>)>,
) -> Seq<char> {
    let matched = match selected(template, Seq::empty(), tag) {
        Some(m) => m,
        None => Seq::empty(),
    };
    if matched.len() > 0 {
        printed_node(template, copy_attr_edits(matched, attrs), matched[0])
    } else {
        Seq::empty()
    }
}

/// The edits a step other than filling a list makes, after the edits `h`;
/// `ids` names the nodes of the description the step was planned from.
pub open spec fn plain_step_edits(src: Seq<char>, h: Seq<Edit>, ids: Seq<NodeId>, s: Step) -> Seq<
    Edit,
> {
    match s {
        Step::SetAttr { node, name, value } => seq![Edit::SetAttr { node: ids[node], name, value }],
        Step::SetHtml { node, html } => seq![Edit::SetHtml { node: ids[node], html }],
        Step::FillComponent { node, template, tag, attr_lists } => {
            let t = printed_node(src, h, ids[template]);
            seq![Edit::RemoveElementChildren { node: ids[node] }] + Seq::new(
                attr_lists.len(),
                |i: int| Edit::AppendHtml { node: ids[node], html: component_copy(t, tag, attr_lists[i]) },
            )
        },
        Step::FillList { .. } => Seq::empty(),
    }
}

/// The edits `h` followed by those of `steps`, in order.
pub open spec fn apply_plain(src: Seq<char>, h: Seq<Edit>, ids: Seq<NodeId>, steps: Seq<Step>) -> Seq<
    Edit,
>
    decreases steps.len(),
{
    if steps.len() == 0 {
        h
    } else {
        let h1 = apply_plain(src, h, ids, steps.drop_last());
        h1 + plain_step_edits(src, h1, ids, steps.last())
    }
}

/// The edits after the web-component pass on the page edited by `h`.
pub open spec fn component_pass(src: Seq<char>, h: Seq<Edit>, data: Json) -> Seq<Edit> {
    apply_plain(src, h, page_ids(src, h), component_plan(page_nodes(src, h), data))
}

/// The edits after the plain-value pass on the page edited by `h`.
pub open spec fn value_pass(src: Seq<char>, h: Seq<Edit>, data: Json) -> Seq<Edit> {
    apply_plain(src, h, page_ids(src, h), value_plan(page_nodes(src, h), data))
}

/// The edits after the list pass on the page edited by `h`, lists inside
/// list items rendered `depth` levels deep.
pub open spec fn list_pass(src: Seq<char>, h: Seq<Edit>, data: Json, depth: int) -> Seq<Edit>
    decreases depth, 2int, 0int,
{
    apply_lists(src, h, page_ids(src, h), list_plan(page_nodes(src, h), data), depth)
}

/// The edits `h` followed by those of the list-pass `steps`, in order.
pub open spec fn apply_lists(
    src: Seq<char>,
    h: Seq<Edit>,
    ids: Seq<NodeId>,
    steps: Seq<Step>,
    depth: int,
) -> Seq<Edit>
    decreases depth, 1int, steps.len(),
{
    if steps.len() == 0 {
        h
    } else {
        let h1 = apply_lists(src, h, ids, steps.drop_last(), depth);
        match steps.last() {
            Step::FillList { node, template, items } => h1 + list_fill_edits(
                ids[node],
                printed_node(src, h1, ids[template]),
                items,
                depth,
            ),
            s => h1 + plain_step_edits(src, h1, ids, s),
        }
    }
}

/// Filling a list: its element children removed, then one rendered copy of
/// the template appended per item.
pub open spec fn list_fill_edits(node: NodeId, template: Seq<char>, items: Seq<Json>, depth: int) -> Seq<
    Edit,
>
    decreases depth, 0int, 1int,
{
    seq![Edit::RemoveElementChildren { node }] + Seq::new(
        items.len(),
        |i: int| Edit::AppendHtml { node, html: list_copy(template, items[i], depth) },
    )
}

/// One rendered copy of a list's template: the template parsed as a
/// document, its lists filled from `item` (while `depth` allows), then its
/// plain values, and printed.
pub open spec fn list_copy(template: Seq<char>, item: Json, depth: int) -> Seq<char>
    decreases depth, 0int, 0int,
{
    let h = if depth > 0 {
        list_pass(template, Seq::empty(), item, depth - 1)
    } else {
        Seq::empty()
    };
    printed(template, value_pass(template, h, item))
}

/// The edits that rendering `src` with `data` makes before the plain-value
/// pass: the web-component pass, then the list pass (as deep as the page has
/// nodes).
pub open spec fn edits_before_values(src: Seq<char>, data: Json) -> Seq<Edit> {
    let h1 = component_pass(src, Seq::empty(), data);
    list_pass(src, h1, data, page_nodes(src, Seq::empty()).len() as int)
}

/// All the edits that rendering `src` with `data` makes: those before the
/// plain-value pass, then the plain-value pass.
pub open spec fn rendered_edits(src: Seq<char>, data: Json) -> Seq<Edit> {
    value_pass(src, edits_before_values(src, data), data)
}

/// Lists nested one in the next: each of `chain` is a list of `nodes`, inside
/// the subtree of the one before it.
pub open spec fn list_chain(nodes: Seq<NodeRecord>, chain: Seq<int>) -> bool {
    &&& forall|i: int| 0 <= i < chain.len() ==> 0 <= #[trigger] chain[i] < nodes.len()
    &&& forall|i: int| 0 <= i < chain.len() ==> is_list(nodes[#[trigger] chain[i]])
    &&& forall|i: int| 0 < i < chain.len() ==> chain[i - 1] < #[trigger] chain[i] < subtree_end(nodes, chain[i - 1])
}

proof fn lemma_rising_len(chain: Seq<int>, n: int)
    requires
        forall|i: int| 0 <= i < chain.len() ==> 0 <= #[trigger] chain[i],
        forall|i: int| 0 < i < chain.len() ==> chain[i - 1] < #[trigger] chain[i],
        chain.len() > 0 ==> chain.last() < n,
        0 <= n,
    ensures
        chain.len() <= n,
    decreases chain.len(),
{
    if chain.len() > 0 {
        let rest = chain.drop_last();
        assert forall|i: int| 0 < i < rest.len() implies rest[i - 1] < #[trigger] rest[i] by {
            assert(rest[i] == chain[i]);
            assert(rest[i - 1] == chain[i - 1]);
        }
        if rest.len() > 0 {
            assert(rest.last() == chain[chain.len() - 2]);
            assert(chain[chain.len() - 2] < chain[chain.len() - 1]);
        }
        assert forall|i: int| 0 <= i < rest.len() implies 0 <= #[trigger] rest[i] by {
            assert(rest[i] == chain[i]);
        }
        lemma_rising_len(rest, chain.last());
        assert(rest.len() == chain.len() - 1);
        assert(chain.last() < n);
        assert(0 <= chain[chain.len() - 1]);
        assert(rest.len() <= chain[chain.len() - 1]);
    }
}

/// Lists are rendered as deep as they nest: the list pass is given a depth
/// of at least the number of lists nested one in another in the template,
/// so that each level of such a chain has its lists filled from its items.
pub proof fn law_lists_rendered_as_deep_as_they_nest(src: Seq<char>, data: Json)
    ensures
        exists|depth: int|
            edits_before_values(src, data) == #[trigger] list_pass(
                src,
                component_pass(src, Seq::empty(), data),
                data,
                depth,
            ) && forall|chain: Seq<int>|
                list_chain(page_nodes(src, Seq::empty()), chain) ==> chain.len() <= depth,
{
    let nodes = page_nodes(src, Seq::empty());
    let depth = nodes.len() as int;
    assert forall|chain: Seq<int>| list_chain(nodes, chain) implies chain.len() <= depth by {
        lemma_rising_len(chain, depth);
    }
    assert(edits_before_values(src, data) == list_pass(
        src,
        component_pass(src, Seq::empty(), data),
        data,
        depth,
    ));
}

/// What rendering `src` with `data` gives: the page printed after those edits.
pub open spec fn rendered(src: Seq<char>, data: Json) -> Seq<char> {
    printed(src, rendered_edits(src, data))
}

/// Every step sets an attribute.
pub open spec fn only_attr_steps(steps: Seq<Step>) -> bool {
    forall|k: int| 0 <= k < steps.len() ==> (#[trigger] steps[k]) is SetAttr
}

/// The attributes of the node `id` (an element or not) after the attribute
/// steps `steps`, their nodes named by `ids`, starting from `a`.
pub open spec fn attrs_after(
    a: Seq<(Seq<char>, Seq<char>)>,
    element: bool,
    id: NodeId,
    ids: Seq<NodeId>,
    steps: Seq<Step>,
) -> Seq<(Seq<char>, Seq<char>)>
    decreases steps.len(),
{
    if steps.len() == 0 {
        a
    } else {
        let prev = attrs_after(a, element, id, ids, steps.drop_last());
        match steps.last() {
            Step::SetAttr { node, name, value } => if element && ids[node] == id {
                attrs_set(prev, name, value)
            } else {
                prev
            },
            _ => prev,
        }
    }
}

/// What attribute steps do to the ids and the description of a page: the
/// tree is the same, and each node's attributes are those the steps set on it.
pub open spec fn attr_steps_effect(
    before: (Seq<NodeId>, Seq<NodeRecord>),
    after: (Seq<NodeId>, Seq<NodeRecord>),
    ids: Seq<NodeId>,
    steps: Seq<Step>,
) -> bool {
    &&& after.0 == before.0
    &&& after.1.len() == before.1.len()
    &&& forall|k: int|
        0 <= k < before.1.len() ==> same_but_attrs(#[trigger] after.1[k], before.1[k]) && attr_pairs(
            after.1[k],
        ) == attrs_after(attr_pairs(before.1[k]), before.1[k].element, before.0[k], ids, steps)
}

/// Each attribute that `steps` sets on a node reads back, on the node `n`, as
/// the value set.
pub open spec fn reads_back(steps: Seq<Step>, n: NodeRecord) -> bool {
    forall|k: int|
        0 <= k < steps.len() ==> match #[trigger] steps[k] {
            Step::SetAttr { name, value, .. } => node_attr(n, name) == Some(value),
            _ => true,
        }
}

proof fn lemma_attr_steps_none(d: (Seq<NodeId>, Seq<NodeRecord>), ids: Seq<NodeId>)
    ensures
        attr_steps_effect(d, d, ids, Seq::<Step>::empty()),
{
}

proof fn lemma_attr_step(
    d0: (Seq<NodeId>, Seq<NodeRecord>),
    before: (Seq<NodeId>, Seq<NodeRecord>),
    after: (Seq<NodeId>, Seq<NodeRecord>),
    ids: Seq<NodeId>,
    steps: Seq<Step>,
    s: Step,
)
    requires
        attr_steps_effect(d0, before, ids, steps),
        s matches Step::SetAttr { node, name, value } && attr_edit_effect(
            before,
            after,
            ids[node],
            name,
            value,
        ),
    ensures
        attr_steps_effect(d0, after, ids, steps.push(s)),
{
    assert(steps.push(s).drop_last() =~= steps);
    assert forall|k: int| 0 <= k < d0.1.len() implies same_but_attrs(#[trigger] after.1[k], d0.1[k])
        && attr_pairs(after.1[k]) == attrs_after(
        attr_pairs(d0.1[k]),
        d0.1[k].element,
        d0.0[k],
        ids,
        steps.push(s),
    ) by {
        assert(same_but_attrs(before.1[k], d0.1[k]));
        assert(same_but_attrs(after.1[k], before.1[k]));
    }
}

/// In the plain-value plan only the step planned at a node names it, so a
/// node's attributes after the plan are those that its own step sets.
proof fn lemma_value_attrs_after(
    nodes: Seq<NodeRecord>,
    data: Json,
    ids: Seq<NodeId>,
    a: Seq<(Seq<char>, Seq<char>)>,
    element: bool,
    x: int,
    j: int,
)
    requires
        0 <= x < nodes.len(),
        ids.len() == nodes.len(),
        ids.no_duplicates(),
        0 <= j <= nodes.len(),
    ensures
        attrs_after(a, element, ids[x], ids, steps_upto(value_step_fn(nodes, data), j)) == if x < j
            && element && value_steps_at(nodes, data, x).len() > 0 {
            match value_steps_at(nodes, data, x)[0] {
                Step::SetAttr { name, value, .. } => attrs_set(a, name, value),
                _ => a,
            }
        } else {
            a
        },
    decreases j,
{
    if j > 0 {
        let f = value_step_fn(nodes, data);
        lemma_value_attrs_after(nodes, data, ids, a, element, x, j - 1);
        let prev = steps_upto(f, j - 1);
        let t = value_steps_at(nodes, data, j - 1);
        assert(f(j - 1) == t);
        assert(steps_upto(f, j) == prev + t);
        if t.len() == 0 {
            assert(prev + t =~= prev);
        } else {
            assert(t.len() == 1);
            assert((prev + t).drop_last() =~= prev);
            assert((prev + t).last() == t[0]);
            if x != j - 1 {
                assert(ids[j - 1] != ids[x]);
            }
        }
    }
}

/// The node (its place in the description) that a step edits.
pub open spec fn step_node(s: Step) -> int {
    match s {
        Step::SetAttr { node, .. } => node,
        Step::SetHtml { node, .. } => node,
        Step::FillComponent { node, .. } => node,
        Step::FillList { node, .. } => node,
    }
}

/// Each attribute that `steps` sets, and that no later step of `steps` sets
/// again, reads back on the node `n` as the value set.
pub open spec fn reads_back_last(steps: Seq<Step>, n: NodeRecord) -> bool {
    forall|k: int|
        0 <= k < steps.len() ==> match #[trigger] steps[k] {
            Step::SetAttr { name, value, .. } => (forall|l: int|
                k < l < steps.len() ==> !(#[trigger] steps[l] matches Step::SetAttr { name: m, .. } && m
                    == name)) ==> node_attr(n, name) == Some(value),
            _ => true,
        }
}

proof fn lemma_attrs_after_concat(
    a: Seq<(Seq<char>, Seq<char>)>,
    element: bool,
    id: NodeId,
    ids: Seq<NodeId>,
    s: Seq<Step>,
    t: Seq<Step>,
)
    ensures
        attrs_after(a, element, id, ids, s + t) == attrs_after(
            attrs_after(a, element, id, ids, s),
            element,
            id,
            ids,
            t,
        ),
    decreases t.len(),
{
    if t.len() == 0 {
        assert(s + t =~= s);
    } else {
        assert((s + t).drop_last() =~= s + t.drop_last());
        assert((s + t).last() == t.last());
        lemma_attrs_after_concat(a, element, id, ids, s, t.drop_last());
    }
}

proof fn lemma_attrs_after_untouched(
    a: Seq<(Seq<char>, Seq<char>)>,
    element: bool,
    id: NodeId,
    ids: Seq<NodeId>,
    t: Seq<Step>,
)
    requires
        forall|k: int| 0 <= k < t.len() ==> ids[step_node(#[trigger] t[k])] != id,
    ensures
        attrs_after(a, element, id, ids, t) == a,
    decreases t.len(),
{
    if t.len() > 0 {
        assert(ids[step_node(t[t.len() - 1])] != id);
        lemma_attrs_after_untouched(a, element, id, ids, t.drop_last());
    }
}

/// When every step that `f` plans at a node edits that node, a node's
/// attributes after the plan are those that its own steps set.
proof fn lemma_local_attrs_after(
    f: spec_fn(int) -> Seq<Step>,
    ids: Seq<NodeId>,
    a: Seq<(Seq<char>, Seq<char>)>,
    element: bool,
    x: int,
    j: int,
)
    requires
        0 <= x < ids.len(),
        ids.no_duplicates(),
        0 <= j <= ids.len(),
        forall|i: int, k: int|
            0 <= i < ids.len() && 0 <= k < f(i).len() ==> step_node(#[trigger] f(i)[k]) == i,
    ensures
        attrs_after(a, element, ids[x], ids, steps_upto(f, j)) == if x < j {
            attrs_after(a, element, ids[x], ids, f(x))
        } else {
            a
        },
    decreases j,
{
    if j > 0 {
        lemma_local_attrs_after(f, ids, a, element, x, j - 1);
        let prev = steps_upto(f, j - 1);
        lemma_attrs_after_concat(a, element, ids[x], ids, prev, f(j - 1));
        if x != j - 1 {
            assert forall|k: int| 0 <= k < f(j - 1).len() implies ids[step_node(
                #[trigger] f(j - 1)[k],
            )] != ids[x] by {
                assert(step_node(f(j - 1)[k]) == j - 1);
            }
            lemma_attrs_after_untouched(
                attrs_after(a, element, ids[x], ids, prev),
                element,
                ids[x],
                ids,
                f(j - 1),
            );
        }
    }
}

/// The attribute steps of an element's own steps read back, the last one for
/// each name winning.
proof fn lemma_own_steps_read_back(
    a: Seq<(Seq<char>, Seq<char>)>,
    id: NodeId,
    ids: Seq<NodeId>,
    t: Seq<Step>,
    k: int,
)
    requires
        0 <= k < t.len(),
        forall|i: int| 0 <= i < t.len() ==> ids[step_node(#[trigger] t[i])] == id,
        t[k] is SetAttr,
        forall|l: int|
            k < l < t.len() ==> !(#[trigger] t[l] matches Step::SetAttr { name: m, .. } && m
                == t[k]->SetAttr_name),
    ensures
        pair_lookup(attrs_after(a, true, id, ids, t), t[k]->SetAttr_name) == Some(
            t[k]->SetAttr_value,
        ),
    decreases t.len(),
{
    let name = t[k]->SetAttr_name;
    let last = t[t.len() - 1];
    assert(ids[step_node(last)] == id);
    if k == t.len() - 1 {
        lemma_attrs_set_lookup(
            attrs_after(a, true, id, ids, t.drop_last()),
            name,
            t[k]->SetAttr_value,
            name,
        );
    } else {
        lemma_own_steps_read_back(a, id, ids, t.drop_last(), k);
        if let Step::SetAttr { name: m, value: v, .. } = last {
            assert(m != name);
            lemma_attrs_set_lookup(attrs_after(a, true, id, ids, t.drop_last()), m, v, name);
        }
    }
}

/// The attribute steps of a component all edit the component.
proof fn lemma_component_attr_steps_node(node: int, e: Seq<(Seq<char>, Json)>)
    ensures
        forall|k: int|
            0 <= k < component_attr_steps(node, e).len() ==> step_node(
                #[trigger] component_attr_steps(node, e)[k],
            ) == node,
    decreases e.len(),
{
    if e.len() > 0 {
        lemma_component_attr_steps_node(node, e.drop_last());
        let prev = component_attr_steps(node, e.drop_last());
        let r = component_attr_steps(node, e);
        assert forall|k: int| 0 <= k < r.len() implies step_node(#[trigger] r[k]) == node by {
            if k < prev.len() {
                assert(r[k] == prev[k]);
            }
        }
    }
}

/// Every step that the web-component pass plans at a node edits that node.
proof fn lemma_component_steps_local(nodes: Seq<NodeRecord>, data: Json)
    ensures
        forall|i: int, k: int|
            0 <= i < nodes.len() && 0 <= k < component_step_fn(nodes, data)(i).len() ==> step_node(
                #[trigger] component_step_fn(nodes, data)(i)[k],
            ) == i,
{
    assert forall|i: int, k: int|
        0 <= i < nodes.len() && 0 <= k < component_step_fn(nodes, data)(i).len() implies step_node(
        #[trigger] component_step_fn(nodes, data)(i)[k],
    ) == i by {
        let t = component_steps_at(nodes, data, i);
        assert(component_step_fn(nodes, data)(i) == t);
        if let Some(name) = node_attr(nodes[i], kw_data_rmx()) {
            if let Some(Json::Object(e)) = json_get(data, name) {
                let a = component_attr_steps(i, e);
                let c = component_children_steps(nodes, i, e);
                lemma_component_attr_steps_node(i, e);
                assert(t == a + c);
                if k < a.len() {
                    assert(t[k] == a[k]);
                } else {
                    assert(t[k] == c[k - a.len()]);
                }
            }
        }
    }
}

/// The number of items that are objects.
pub open spec fn object_count(items: Seq<Json>) -> nat
    decreases items.len(),
{
    if items.len() == 0 {
        0
    } else {
        object_count(items.drop_last()) + if items.last() is Object {
            1nat
        } else {
            0nat
        }
    }
}

proof fn lemma_child_attr_lists_len(items: Seq<Json>)
    ensures
        child_attr_lists(items).len() == object_count(items),
    decreases items.len(),
{
    if items.len() > 0 {
        lemma_child_attr_lists_len(items.drop_last());
    }
}

/// A web component whose object has a `children` array, and which has an
/// element child to copy, has its children rebuilt: the web-component pass
/// plans, as the component's last step, one that removes all its element
/// children and then appends one copy per object item of the array, so none
/// when the array holds no object.
pub proof fn law_component_children_rebuilt(
    nodes: Seq<NodeRecord>,
    data: Json,
    d: int,
    name: Seq<char>,
    e: Seq<(Seq<char>, Json)>,
    items: Seq<Json>,
    t: int,
    src: Seq<char>,
    h: Seq<Edit>,
    ids: Seq<NodeId>,
)
    requires
        0 <= d < nodes.len(),
        node_attr(nodes[d], kw_data_rmx()) == Some(name),
        json_get(data, name) == Some(Json::Object(e)),
        entries_get(e, kw_children()) == Some(Json::Array(items)),
        first_element_child(nodes, d) == Some(t),
        nodes[t].name@.len() > 0,
    ensures
        component_steps_at(nodes, data, d).len() > 0,
        component_plan(nodes, data).contains(component_steps_at(nodes, data, d).last()),
        ({
            let ed = plain_step_edits(src, h, ids, component_steps_at(nodes, data, d).last());
            &&& ed.len() == 1 + object_count(items)
            &&& ed[0] == (Edit::RemoveElementChildren { node: ids[d] })
            &&& forall|i: int|
                1 <= i < ed.len() ==> (#[trigger] ed[i] matches Edit::AppendHtml { node, .. } && node
                    == ids[d])
        }),
{
    let steps = component_steps_at(nodes, data, d);
    let a = component_attr_steps(d, e);
    let c = component_children_steps(nodes, d, e);
    assert(steps == a + c);
    assert(c.len() == 1);
    assert(steps.last() == c[0]);
    lemma_child_attr_lists_len(items);
    let f = component_step_fn(nodes, data);
    let n = nodes.len() as int;
    lemma_upto_member(f, d + 1, n);
    assert(f(d) == steps);
    assert(steps_upto(f, d + 1) == steps_upto(f, d) + f(d));
    let k = steps_upto(f, d + 1).len() - 1;
    assert(steps_upto(f, d + 1)[k] == steps.last());
    assert(component_plan(nodes, data)[k] == steps.last());
    let ed = plain_step_edits(src, h, ids, steps.last());
    assert forall|i: int| 1 <= i < ed.len() implies (#[trigger] ed[i] matches Edit::AppendHtml {
        node,
        ..
    } && node == ids[d]) by {}
}

/// No name of the node is a key of `data`: neither its `rmx-name` nor its
/// `data-rmx` (none is, when `data` is not an object).
pub open spec fn names_absent(n: NodeRecord, data: Json) -> bool {
    &&& (rmx_name(n) matches Some(k) ==> json_get(data, k) is None)
    &&& (node_attr(n, kw_data_rmx()) matches Some(k) ==> json_get(data, k) is None)
}

proof fn lemma_steps_upto_empty(f: spec_fn(int) -> Seq<Step>, j: int)
    requires
        forall|i: int| 0 <= i < j ==> (#[trigger] f(i)).len() == 0,
    ensures
        steps_upto(f, j) == Seq::<Step>::empty(),
    decreases j,
{
    if j > 0 {
        lemma_steps_upto_empty(f, j - 1);
        assert(steps_upto(f, j - 1) + f(j - 1) =~= Seq::<Step>::empty());
    }
}

/// When `data` names no node, no pass plans a step.
proof fn lemma_unnamed_data_no_steps(nodes: Seq<NodeRecord>, data: Json)
    requires
        forall|d: int| 0 <= d < nodes.len() ==> names_absent(#[trigger] nodes[d], data),
    ensures
        component_plan(nodes, data) == Seq::<Step>::empty(),
        list_plan(nodes, data) == Seq::<Step>::empty(),
        value_plan(nodes, data) == Seq::<Step>::empty(),
{
    let n = nodes.len() as int;
    assert forall|i: int| 0 <= i < n implies (#[trigger] component_step_fn(nodes, data)(i)).len()
        == 0 by {
        assert(names_absent(nodes[i], data));
    }
    lemma_steps_upto_empty(component_step_fn(nodes, data), n);
    assert forall|i: int| 0 <= i < n implies (#[trigger] list_step_fn(nodes, data)(i)).len() == 0 by {
        assert(names_absent(nodes[i], data));
    }
    lemma_steps_upto_empty(list_step_fn(nodes, data), n);
    assert forall|i: int| 0 <= i < n implies (#[trigger] value_step_fn(nodes, data)(i)).len() == 0 by {
        assert(names_absent(nodes[i], data));
    }
    lemma_steps_upto_empty(value_step_fn(nodes, data), n);
}

proof fn lemma_unnamed_data_no_edits(src: Seq<char>, data: Json)
    requires
        forall|d: int|
            0 <= d < page_nodes(src, Seq::empty()).len() ==> names_absent(
                #[trigger] page_nodes(src, Seq::empty())[d],
                data,
            ),
    ensures
        rendered_edits(src, data) == Seq::<Edit>::empty(),
{
    lemma_unnamed_data_no_steps(page_nodes(src, Seq::empty()), data);
    assert(component_pass(src, Seq::empty(), data) == Seq::<Edit>::empty());
    assert(edits_before_values(src, data) == Seq::<Edit>::empty());
}

/// A list item that is not an object names nothing: its copy of the template
/// is the template as parsed and printed, with no edit.
pub proof fn law_non_object_item_copies_template(template: Seq<char>, item: Json, depth: int)
    requires
        !(item is Object),
    ensures
        list_copy(template, item, depth) == printed(template, Seq::<Edit>::empty()),
{
    let nodes = page_nodes(template, Seq::empty());
    assert forall|d: int| 0 <= d < nodes.len() implies names_absent(#[trigger] nodes[d], item) by {}
    lemma_unnamed_data_no_steps(nodes, item);
    if depth > 0 {
        assert(list_pass(template, Seq::empty(), item, depth - 1) == Seq::<Edit>::empty());
    }
    assert(value_pass(template, Seq::empty(), item) == Seq::<Edit>::empty());
}

/// Data that names nothing in the template changes nothing: rendering makes
/// no edit, and gives what rendering with an empty object gives.
pub proof fn law_unnamed_data_changes_nothing(src: Seq<char>, data: Json)
    requires
        forall|d: int|
            0 <= d < page_nodes(src, Seq::empty()).len() ==> names_absent(
                #[trigger] page_nodes(src, Seq::empty())[d],
                data,
            ),
    ensures
        rendered_edits(src, data) == Seq::<Edit>::empty(),
        rendered(src, data) == rendered(src, Json::Object(Seq::empty())),
{
    lemma_unnamed_data_no_edits(src, data);
    lemma_unnamed_data_no_edits(src, Json::Object(Seq::empty()));
}

/// What a step other than filling does to the ids and the description of a
/// page whose document node is `root`, its nodes named by `ids`.
#[verifier::opaque]
pub open spec fn step_effect(
    before: (Seq<NodeId>, Seq<NodeRecord>),
    after: (Seq<NodeId>, Seq<NodeRecord>),
    ids: Seq<NodeId>,
    s: Step,
    root: NodeId,
) -> bool {
    match s {
        Step::SetAttr { node, name, value } => attr_edit_effect(before, after, ids[node], name, value),
        Step::SetHtml { node, .. } => content_effect(before, after, ids[node], root, false),
        _ => true,
    }
}

/// The ids and the description of the page parsed from `src`, edited by
/// `h0` and then by the first `i` of `steps`.
#[verifier::opaque]
pub open spec fn desc_after(
    src: Seq<char>,
    h0: Seq<Edit>,
    ids: Seq<NodeId>,
    steps: Seq<Step>,
    i: int,
) -> (Seq<NodeId>, Seq<NodeRecord>) {
    described(src, apply_plain(src, h0, ids, steps.take(i)))
}

/// Each of `steps`, made after those before it, has its effect.
pub open spec fn traced(src: Seq<char>, h0: Seq<Edit>, ids: Seq<NodeId>, steps: Seq<Step>) -> bool {
    forall|i: int|
        0 <= i < steps.len() ==> step_effect(
            desc_after(src, h0, ids, steps, i),
            desc_after(src, h0, ids, steps, i + 1),
            ids,
            #[trigger] steps[i],
            document_node(src),
        )
}

// ---------------------------------------------------------------------------
// What the plain-value pass writes reads back
// ---------------------------------------------------------------------------
/// The node with id `id` is, in the description `nodes` named by `ids`, an
/// ancestor of the node at `x`.
pub open spec fn encloses_id(nodes: Seq<NodeRecord>, ids: Seq<NodeId>, x: int, id: NodeId) -> bool {
    exists|a: int| 0 <= a < x < subtree_end(nodes, a) && #[trigger] ids[a] == id
}

/// Some node after the one at `p`, up to the one at `c`, is not deeper than
/// it: the subtree of `p` ends by `c`.
pub open spec fn closes(d: (Seq<NodeId>, Seq<NodeRecord>), p: int, c: int) -> bool {
    exists|t: int| p < t <= c && (#[trigger] d.1[t]).depth <= d.1[p].depth
}

/// Each node before `c` in `d` has its subtree end by `c`, or is one of the
/// ancestors, in the original description, of the node at `x`.
pub open spec fn guarded(
    d: (Seq<NodeId>, Seq<NodeRecord>),
    c: int,
    nodes: Seq<NodeRecord>,
    ids: Seq<NodeId>,
    x: int,
) -> bool {
    forall|p: int| 0 <= p < c ==> #[trigger] closes(d, p, c) || encloses_id(nodes, ids, x, d.0[p])
}

/// Before the step of the node at `x`: from `c` on, `d` is the original
/// description from `x` on.
pub open spec fn pending_at(
    d: (Seq<NodeId>, Seq<NodeRecord>),
    c: int,
    nodes: Seq<NodeRecord>,
    ids: Seq<NodeId>,
    x: int,
) -> bool {
    &&& d.0.len() == d.1.len()
    &&& 0 <= c
    &&& c + (nodes.len() - x) == d.1.len()
    &&& forall|j: int|
        #![trigger d.0[j]]
        #![trigger d.1[j]]
        c <= j < d.1.len() ==> d.0[j] == ids[j - c + x] && same_node(d.1[j], nodes[j - c + x])
    &&& guarded(d, c, nodes, ids, x)
}

/// After the step of the node at `x`: the node stands at `c`, an element
/// whose attribute `name` is `value`.
pub open spec fn written_at(
    d: (Seq<NodeId>, Seq<NodeRecord>),
    c: int,
    nodes: Seq<NodeRecord>,
    ids: Seq<NodeId>,
    x: int,
    name: Seq<char>,
    value: Seq<char>,
) -> bool {
    &&& d.0.len() == d.1.len()
    &&& 0 <= c < d.1.len()
    &&& d.0[c] == ids[x]
    &&& d.1[c].element
    &&& pair_lookup(attr_pairs(d.1[c]), name) == Some(value)
    &&& guarded(d, c, nodes, ids, x)
}

proof fn lemma_closes_end(d: (Seq<NodeId>, Seq<NodeRecord>), p: int, c: int)
    requires
        closes(d, p, c),
        0 <= p < c < d.1.len(),
    ensures
        subtree_end(d.1, p) <= c,
{
    lemma_subtree_end(d.1, p);
    let t = choose|t: int| p < t <= c && (#[trigger] d.1[t]).depth <= d.1[p].depth;
    if subtree_end(d.1, p) > c {
        assert(d.1[t].depth > d.1[p].depth);
    }
}

/// The content of the node at `p`, before `c`, replaced: the nodes from `c`
/// on move to `c2`, and the nodes before them stay guarded.
proof fn lemma_shift(
    d: (Seq<NodeId>, Seq<NodeRecord>),
    d2: (Seq<NodeId>, Seq<NodeRecord>),
    p: int,
    c: int,
    nodes: Seq<NodeRecord>,
    ids: Seq<NodeId>,
    x: int,
) -> (c2: int)
    requires
        d.0.len() == d.1.len(),
        0 <= p < c < d.1.len(),
        content_layout(d, d2, p, p + 1),
        subtree_end(d.1, p) <= c,
        guarded(d, c, nodes, ids, x),
    ensures
        c2 == d2.1.len() - (d.1.len() - c),
        0 <= c2 < d2.1.len(),
        d2.0.len() == d2.1.len(),
        guarded(d2, c2, nodes, ids, x),
        forall|j: int|
            #![trigger d2.0[j]]
            #![trigger d2.1[j]]
            c2 <= j < d2.1.len() ==> d2.0[j] == d.0[j - c2 + c] && same_node(d2.1[j], d.1[j - c2 + c]),
{
    lemma_subtree_end(d.1, p);
    let e = subtree_end(d.1, p);
    let m = d2.1.len() - (d.1.len() - e);
    let c2 = d2.1.len() - (d.1.len() - c);
    assert(d2.1[m].depth == d.1[e].depth);
    assert forall|q: int| 0 <= q < c2 implies #[trigger] closes(d2, q, c2) || encloses_id(
        nodes,
        ids,
        x,
        d2.0[q],
    ) by {
        if q <= p {
            assert(same_shape(d2.1[q], d.1[q]));
            assert(d2.0[q] == d.0[q]);
            assert(closes(d, q, c) || encloses_id(nodes, ids, x, d.0[q]));
            if closes(d, q, c) {
                let t = choose|t: int| q < t <= c && (#[trigger] d.1[t]).depth <= d.1[q].depth;
                if t <= p {
                    assert(same_shape(d2.1[t], d.1[t]));
                    assert(closes(d2, q, c2));
                } else if t < e {
                    assert(d.1[t].depth > d.1[p].depth);
                    assert(same_shape(d2.1[p], d.1[p]));
                    assert(closes(d2, q, c2));
                } else {
                    let t2 = t - e + m;
                    assert(t2 - m + e == t);
                    assert(d2.1[t2].depth == d.1[t].depth);
                    assert(closes(d2, q, c2));
                }
            }
        } else if q < m {
            assert(d2.1[q].depth > d.1[p].depth);
            assert(closes(d2, q, c2));
        } else {
            let k = q - m + e;
            assert(same_node(d2.1[q], d.1[q - m + e]));
            assert(d2.0[q] == d.0[k]);
            assert(closes(d, k, c) || encloses_id(nodes, ids, x, d.0[k]));
            if closes(d, k, c) {
                let t = choose|t: int| k < t <= c && (#[trigger] d.1[t]).depth <= d.1[k].depth;
                let t2 = t - e + m;
                assert(t2 - m + e == t);
                assert(d2.1[q].depth == d.1[k].depth);
                assert(d2.1[t2].depth == d.1[t].depth);
                assert(closes(d2, q, c2));
            }
        }
    }
    assert forall|j: int|
        #![trigger d2.0[j]]
        #![trigger d2.1[j]]
        c2 <= j < d2.1.len() implies d2.0[j] == d.0[j - c2 + c] && same_node(d2.1[j], d.1[j - c2 + c]) by {
        assert(j - m + e == j - c2 + c);
        assert(same_node(d2.1[j], d.1[j - m + e]));
    }
    c2
}

/// The content of the node at `p`, at or after `c`, replaced: the nodes up to
/// `c` stay, and stay guarded.
proof fn lemma_keep(
    d: (Seq<NodeId>, Seq<NodeRecord>),
    d2: (Seq<NodeId>, Seq<NodeRecord>),
    p: int,
    c: int,
    nodes: Seq<NodeRecord>,
    ids: Seq<NodeId>,
    x: int,
)
    requires
        d.0.len() == d.1.len(),
        0 <= c <= p < d.1.len(),
        content_layout(d, d2, p, p + 1),
        guarded(d, c, nodes, ids, x),
    ensures
        d2.0.len() == d2.1.len(),
        c < d2.1.len(),
        d2.0[c] == d.0[c],
        same_shape(d2.1[c], d.1[c]),
        guarded(d2, c, nodes, ids, x),
{
    lemma_subtree_end(d.1, p);
    assert(same_shape(d2.1[c], d.1[c]));
    assert forall|q: int| 0 <= q < c implies #[trigger] closes(d2, q, c) || encloses_id(
        nodes,
        ids,
        x,
        d2.0[q],
    ) by {
        assert(same_shape(d2.1[q], d.1[q]));
        assert(d2.0[q] == d.0[q]);
        assert(closes(d, q, c) || encloses_id(nodes, ids, x, d.0[q]));
        if closes(d, q, c) {
            let t = choose|t: int| q < t <= c && (#[trigger] d.1[t]).depth <= d.1[q].depth;
            assert(same_shape(d2.1[t], d.1[t]));
            assert(closes(d2, q, c));
        }
    }
}

/// Setting an attribute keeps the ids and every depth, so `guarded` holds on.
proof fn lemma_attr_guarded(
    d: (Seq<NodeId>, Seq<NodeRecord>),
    d2: (Seq<NodeId>, Seq<NodeRecord>),
    t: NodeId,
    name: Seq<char>,
    value: Seq<char>,
    c: int,
    nodes: Seq<NodeRecord>,
    ids: Seq<NodeId>,
    x: int,
)
    requires
        attr_edit_effect(d, d2, t, name, value),
        d.0.len() == d.1.len(),
        0 <= c < d.1.len(),
        guarded(d, c, nodes, ids, x),
    ensures
        guarded(d2, c, nodes, ids, x),
{
    assert forall|q: int| 0 <= q < c implies #[trigger] closes(d2, q, c) || encloses_id(
        nodes,
        ids,
        x,
        d2.0[q],
    ) by {
        assert(closes(d, q, c) || encloses_id(nodes, ids, x, d.0[q]));
        if closes(d, q, c) {
            let w = choose|w: int| q < w <= c && (#[trigger] d.1[w]).depth <= d.1[q].depth;
            assert(same_but_attrs(d2.1[w], d.1[w]));
            assert(same_but_attrs(d2.1[q], d.1[q]));
            assert(closes(d2, q, c));
        }
    }
}

/// An unchanged document keeps `guarded`.
proof fn lemma_same_guarded(
    d: (Seq<NodeId>, Seq<NodeRecord>),
    d2: (Seq<NodeId>, Seq<NodeRecord>),
    c: int,
    nodes: Seq<NodeRecord>,
    ids: Seq<NodeId>,
    x: int,
)
    requires
        d2.0 == d.0,
        d2.1.len() == d.1.len(),
        forall|k: int| 0 <= k < d.1.len() ==> same_node(#[trigger] d2.1[k], d.1[k]),
        0 <= c < d.1.len(),
        guarded(d, c, nodes, ids, x),
    ensures
        guarded(d2, c, nodes, ids, x),
{
    assert forall|q: int| 0 <= q < c implies #[trigger] closes(d2, q, c) || encloses_id(
        nodes,
        ids,
        x,
        d2.0[q],
    ) by {
        assert(closes(d, q, c) || encloses_id(nodes, ids, x, d.0[q]));
        if closes(d, q, c) {
            let w = choose|w: int| q < w <= c && (#[trigger] d.1[w]).depth <= d.1[q].depth;
            assert(same_node(d2.1[w], d.1[w]));
            assert(same_node(d2.1[q], d.1[q]));
            assert(closes(d2, q, c));
        }
    }
}

/// The ids a description names are distinct, and none is the document node.
pub open spec fn ids_ok(ids: Seq<NodeId>, nodes: Seq<NodeRecord>, root: NodeId) -> bool {
    &&& ids.len() == nodes.len()
    &&& ids.no_duplicates()
    &&& !ids.contains(root)
}

/// A step before the one of the node at `x`.
proof fn lemma_pending_step(
    d: (Seq<NodeId>, Seq<NodeRecord>),
    d2: (Seq<NodeId>, Seq<NodeRecord>),
    c: int,
    s: Step,
    nodes: Seq<NodeRecord>,
    ids: Seq<NodeId>,
    x: int,
    root: NodeId,
) -> (c2: int)
    requires
        pending_at(d, c, nodes, ids, x),
        step_effect(d, d2, ids, s, root),
        ids_ok(ids, nodes, root),
        0 <= x < nodes.len(),
        0 <= step_node(s) < x,
        s is SetAttr || s is SetHtml,
        s matches Step::SetHtml { node: q, .. } ==> !(q < x < subtree_end(nodes, q)),
    ensures
        pending_at(d2, c2, nodes, ids, x),
{
    reveal(step_effect);
    let q = step_node(s);
    let t = ids[q];
    assert(c < d.1.len());
    match s {
        Step::SetAttr { node, name, value } => {
            lemma_attr_guarded(d, d2, t, name, value, c, nodes, ids, x);
            assert forall|j: int|
                #![trigger d2.0[j]]
                #![trigger d2.1[j]]
                c <= j < d2.1.len() implies d2.0[j] == ids[j - c + x] && same_node(
                d2.1[j],
                nodes[j - c + x],
            ) by {
                assert(d.0[j] == ids[j - c + x]);
                assert(ids[j - c + x] != ids[q]);
                assert(same_but_attrs(d2.1[j], d.1[j]));
                assert(same_node(d.1[j], nodes[j - c + x]));
            }
            c
        },
        Step::SetHtml { .. } => {
            assert(content_effect(d, d2, t, root, false));
            if exists|p: int| 0 <= p < d.0.len() && #[trigger] d.0[p] == t {
                let p = choose|p: int| 0 <= p < d.0.len() && #[trigger] d.0[p] == t;
                assert(content_layout(d, d2, p, p + 1));
                if p >= c {
                    assert(d.0[p] == ids[p - c + x]);
                    assert(ids[p - c + x] != ids[q]);
                }
                assert(closes(d, p, c) || encloses_id(nodes, ids, x, d.0[p]));
                if encloses_id(nodes, ids, x, d.0[p]) {
                    let a = choose|a: int| 0 <= a < x < subtree_end(nodes, a) && #[trigger] ids[a] == t;
                    assert(a == q);
                }
                lemma_closes_end(d, p, c);
                let c2 = lemma_shift(d, d2, p, c, nodes, ids, x);
                assert forall|j: int|
                    #![trigger d2.0[j]]
                    #![trigger d2.1[j]]
                    c2 <= j < d2.1.len() implies d2.0[j] == ids[j - c2 + x] && same_node(
                    d2.1[j],
                    nodes[j - c2 + x],
                ) by {
                    assert(d.0[j - c2 + c] == ids[j - c2 + x]);
                    assert(same_node(d.1[j - c2 + c], nodes[j - c2 + x]));
                }
                c2
            } else {
                assert(ids.contains(t));
                lemma_same_guarded(d, d2, c, nodes, ids, x);
                assert forall|j: int|
                    #![trigger d2.0[j]]
                    #![trigger d2.1[j]]
                    c <= j < d2.1.len() implies d2.0[j] == ids[j - c + x] && same_node(
                    d2.1[j],
                    nodes[j - c + x],
                ) by {
                    assert(d.0[j] == ids[j - c + x]);
                    assert(same_node(d2.1[j], d.1[j]));
                }
                c
            }
        },
        _ => {
            c
        },
    }
}

/// The step of the node at `x`, which sets the attribute `name` to `value`.
proof fn lemma_write_step(
    d: (Seq<NodeId>, Seq<NodeRecord>),
    d2: (Seq<NodeId>, Seq<NodeRecord>),
    c: int,
    nodes: Seq<NodeRecord>,
    ids: Seq<NodeId>,
    x: int,
    name: Seq<char>,
    value: Seq<char>,
)
    requires
        pending_at(d, c, nodes, ids, x),
        attr_edit_effect(d, d2, ids[x], name, value),
        0 <= x < nodes.len(),
        nodes[x].element,
    ensures
        written_at(d2, c, nodes, ids, x, name, value),
{
    assert(d.0[c] == ids[x]);
    assert(same_node(d.1[c], nodes[x]));
    assert(same_but_attrs(d2.1[c], d.1[c]));
    lemma_attrs_set_lookup(attr_pairs(d.1[c]), name, value, name);
    lemma_attr_guarded(d, d2, ids[x], name, value, c, nodes, ids, x);
}

/// A step after the one of the node at `x`.
proof fn lemma_written_step(
    d: (Seq<NodeId>, Seq<NodeRecord>),
    d2: (Seq<NodeId>, Seq<NodeRecord>),
    c: int,
    s: Step,
    nodes: Seq<NodeRecord>,
    ids: Seq<NodeId>,
    x: int,
    name: Seq<char>,
    value: Seq<char>,
    root: NodeId,
) -> (c2: int)
    requires
        written_at(d, c, nodes, ids, x, name, value),
        step_effect(d, d2, ids, s, root),
        ids_ok(ids, nodes, root),
        0 <= x < step_node(s) < nodes.len(),
        s is SetAttr || s is SetHtml,
    ensures
        written_at(d2, c2, nodes, ids, x, name, value),
{
    reveal(step_effect);
    let q = step_node(s);
    let t = ids[q];
    assert(ids[x] != t);
    match s {
        Step::SetAttr { node, name: n2, value: v2 } => {
            lemma_attr_guarded(d, d2, t, n2, v2, c, nodes, ids, x);
            assert(same_but_attrs(d2.1[c], d.1[c]));
            c
        },
        Step::SetHtml { .. } => {
            assert(content_effect(d, d2, t, root, false));
            if exists|p: int| 0 <= p < d.0.len() && #[trigger] d.0[p] == t {
                let p = choose|p: int| 0 <= p < d.0.len() && #[trigger] d.0[p] == t;
                assert(content_layout(d, d2, p, p + 1));
                if p >= c {
                    lemma_keep(d, d2, p, c, nodes, ids, x);
                    c
                } else {
                    assert(closes(d, p, c) || encloses_id(nodes, ids, x, d.0[p]));
                    if encloses_id(nodes, ids, x, d.0[p]) {
                        let a = choose|a: int|
                            0 <= a < x < subtree_end(nodes, a) && #[trigger] ids[a] == t;
                        assert(a == q);
                    }
                    lemma_closes_end(d, p, c);
                    let c2 = lemma_shift(d, d2, p, c, nodes, ids, x);
                    assert(d2.0[c2] == d.0[c]);
                    assert(same_node(d2.1[c2], d.1[c]));
                    c2
                }
            } else {
                assert(ids.contains(t));
                lemma_same_guarded(d, d2, c, nodes, ids, x);
                assert(same_node(d2.1[c], d.1[c]));
                c
            }
        },
        _ => {
            c
        },
    }
}

/// Before any step, every node before the one at `x` is guarded.
proof fn lemma_initial_guarded(nodes: Seq<NodeRecord>, ids: Seq<NodeId>, x: int)
    requires
        ids.len() == nodes.len(),
        0 <= x < nodes.len(),
    ensures
        guarded((ids, nodes), x, nodes, ids, x),
{
    let d = (ids, nodes);
    assert forall|p: int| 0 <= p < x implies #[trigger] closes(d, p, x) || encloses_id(
        nodes,
        ids,
        x,
        d.0[p],
    ) by {
        lemma_subtree_end(nodes, p);
        let e = subtree_end(nodes, p);
        if x < e {
            assert(ids[p] == d.0[p]);
            assert(encloses_id(nodes, ids, x, d.0[p]));
        } else {
            assert(d.1[e].depth <= d.1[p].depth);
            assert(closes(d, p, x));
        }
    }
}

/// The step `s` is one that `f` plans at a node from `j` up to `k`.
pub open spec fn planned_at(f: spec_fn(int) -> Seq<Step>, j: int, k: int, s: Step) -> bool {
    exists|a: int, b: int| j <= a < k && 0 <= b < f(a).len() && #[trigger] f(a)[b] == s
}

/// The steps that `f` plans up to `j` begin those it plans up to a later
/// `k`, and each step after them is one that `f` plans at a node from `j` on.
proof fn lemma_upto_member(f: spec_fn(int) -> Seq<Step>, j: int, k: int)
    requires
        0 <= j <= k,
    ensures
        steps_upto(f, j).len() <= steps_upto(f, k).len(),
        forall|i: int| 0 <= i < steps_upto(f, j).len() ==> #[trigger] steps_upto(f, k)[i] == steps_upto(f, j)[i],
        forall|i: int|
            steps_upto(f, j).len() <= i < steps_upto(f, k).len() ==> planned_at(
                f,
                j,
                k,
                #[trigger] steps_upto(f, k)[i],
            ),
    decreases k - j,
{
    if k > j {
        lemma_upto_member(f, j, k - 1);
        let prev = steps_upto(f, k - 1);
        assert(steps_upto(f, k) == prev + f(k - 1));
        assert forall|i: int|
            steps_upto(f, j).len() <= i < steps_upto(f, k).len() implies planned_at(
            f,
            j,
            k,
            #[trigger] steps_upto(f, k)[i],
        ) by {
            if i < prev.len() {
                assert(steps_upto(f, k)[i] == prev[i]);
                assert(planned_at(f, j, k - 1, prev[i]));
                let (a, b) = choose|a: int, b: int|
                    j <= a < k - 1 && 0 <= b < f(a).len() && #[trigger] f(a)[b] == prev[i];
                assert(f(a)[b] == steps_upto(f, k)[i]);
                assert(j <= a < k && 0 <= b < f(a).len());
            } else {
                let b = i - prev.len();
                assert(steps_upto(f, k)[i] == f(k - 1)[b]);
                assert(j <= k - 1 < k && 0 <= b < f(k - 1).len());
            }
        }
    } else {
        assert(steps_upto(f, k) == steps_upto(f, j));
    }
}

/// Each step the plain-value pass plans at a node edits that node, and sets
/// an attribute or replaces the content.
proof fn lemma_value_steps_local(nodes: Seq<NodeRecord>, data: Json)
    ensures
        forall|a: int, b: int|
            0 <= a < nodes.len() && 0 <= b < value_step_fn(nodes, data)(a).len() ==> step_node(
                #[trigger] value_step_fn(nodes, data)(a)[b],
            ) == a && (value_step_fn(nodes, data)(a)[b] is SetAttr || value_step_fn(nodes, data)(
                a,
            )[b] is SetHtml),
{
}

/// No step of `plan` replaces the content of a node that, in `nodes`, is an
/// ancestor of the node at `x`.
pub open spec fn no_enclosing_replace(plan: Seq<Step>, nodes: Seq<NodeRecord>, x: int) -> bool {
    forall|i: int|
        0 <= i < plan.len() ==> match #[trigger] plan[i] {
            Step::SetHtml { node, .. } => !(node < x < subtree_end(nodes, node)),
            _ => true,
        }
}

/// Each attribute that `steps_at` sets reads back as the value set, on some
/// node of `d` with the id `id`.
pub open spec fn reads_back_in(d: (Seq<NodeId>, Seq<NodeRecord>), id: NodeId, steps_at: Seq<Step>) -> bool {
    forall|k: int|
        0 <= k < steps_at.len() ==> match #[trigger] steps_at[k] {
            Step::SetAttr { name, value, .. } => exists|y: int|
                0 <= y < d.1.len() && #[trigger] d.0[y] == id && node_attr(d.1[y], name) == Some(value),
            _ => true,
        }
}

proof fn lemma_pending_upto(
    src: Seq<char>,
    h0: Seq<Edit>,
    ids: Seq<NodeId>,
    nodes: Seq<NodeRecord>,
    steps: Seq<Step>,
    x: int,
    i: int,
) -> (c: int)
    requires
        described(src, h0) == (ids, nodes),
        ids_ok(ids, nodes, document_node(src)),
        0 <= x < nodes.len(),
        traced(src, h0, ids, steps),
        0 <= i <= steps.len(),
        forall|k: int|
            0 <= k < i ==> 0 <= step_node(#[trigger] steps[k]) < x && (steps[k] is SetAttr
                || steps[k] is SetHtml),
        no_enclosing_replace(steps, nodes, x),
    ensures
        pending_at(desc_after(src, h0, ids, steps, i), c, nodes, ids, x),
    decreases i,
{
    if i == 0 {
        reveal(desc_after);
        assert(steps.take(0) =~= Seq::<Step>::empty());
        lemma_initial_guarded(nodes, ids, x);
        x
    } else {
        let c0 = lemma_pending_upto(src, h0, ids, nodes, steps, x, i - 1);
        let s = steps[i - 1];
        assert(step_effect(
            desc_after(src, h0, ids, steps, i - 1),
            desc_after(src, h0, ids, steps, i),
            ids,
            s,
            document_node(src),
        ));
        assert(s matches Step::SetHtml { node: q, .. } ==> !(q < x < subtree_end(nodes, q)));
        lemma_pending_step(
            desc_after(src, h0, ids, steps, i - 1),
            desc_after(src, h0, ids, steps, i),
            c0,
            s,
            nodes,
            ids,
            x,
            document_node(src),
        )
    }
}

proof fn lemma_written_from(
    src: Seq<char>,
    h0: Seq<Edit>,
    ids: Seq<NodeId>,
    nodes: Seq<NodeRecord>,
    steps: Seq<Step>,
    x: int,
    name: Seq<char>,
    value: Seq<char>,
    i0: int,
    c0: int,
    i: int,
) -> (c: int)
    requires
        ids_ok(ids, nodes, document_node(src)),
        traced(src, h0, ids, steps),
        0 <= i0 <= i <= steps.len(),
        written_at(desc_after(src, h0, ids, steps, i0), c0, nodes, ids, x, name, value),
        forall|k: int|
            i0 <= k < i ==> 0 <= x < step_node(#[trigger] steps[k]) < nodes.len() && (
            steps[k] is SetAttr || steps[k] is SetHtml),
    ensures
        written_at(desc_after(src, h0, ids, steps, i), c, nodes, ids, x, name, value),
    decreases i - i0,
{
    if i == i0 {
        c0
    } else {
        let c1 = lemma_written_from(src, h0, ids, nodes, steps, x, name, value, i0, c0, i - 1);
        let s = steps[i - 1];
        assert(step_effect(
            desc_after(src, h0, ids, steps, i - 1),
            desc_after(src, h0, ids, steps, i),
            ids,
            s,
            document_node(src),
        ));
        lemma_written_step(
            desc_after(src, h0, ids, steps, i - 1),
            desc_after(src, h0, ids, steps, i),
            c1,
            s,
            nodes,
            ids,
            x,
            name,
            value,
            document_node(src),
        )
    }
}

/// Writing and reading back: after the plain-value pass, the attribute it
/// sets on the node at `x` reads back, on the node with that id, as the value
/// set, unless a step of the pass replaced the content of an ancestor.
proof fn lemma_value_read_back(
    src: Seq<char>,
    h0: Seq<Edit>,
    ids: Seq<NodeId>,
    nodes: Seq<NodeRecord>,
    data: Json,
    x: int,
    name: Seq<char>,
    value: Seq<char>,
) -> (y: int)
    requires
        described(src, h0) == (ids, nodes),
        ids_ok(ids, nodes, document_node(src)),
        traced(src, h0, ids, value_plan(nodes, data)),
        0 <= x < nodes.len(),
        value_steps_at(nodes, data, x).len() > 0,
        value_steps_at(nodes, data, x)[0] == (Step::SetAttr { node: x, name, value }),
        no_enclosing_replace(value_plan(nodes, data), nodes, x),
    ensures
        ({
            let d = desc_after(src, h0, ids, value_plan(nodes, data), value_plan(nodes, data).len() as int);
            0 <= y < d.1.len() && d.0[y] == ids[x] && node_attr(d.1[y], name) == Some(value)
        }),
{
    let f = value_step_fn(nodes, data);
    let n = nodes.len() as int;
    let plan = value_plan(nodes, data);
    lemma_value_steps_local(nodes, data);
    lemma_upto_member(f, 0, x);
    lemma_upto_member(f, x, n);
    lemma_upto_member(f, x + 1, n);
    let i0 = steps_upto(f, x).len() as int;
    assert(f(x) == value_steps_at(nodes, data, x));
    assert(steps_upto(f, x + 1) == steps_upto(f, x) + f(x));
    assert(f(x).len() == 1);
    assert(plan[i0] == steps_upto(f, x + 1)[i0]);
    assert(plan[i0] == f(x)[0]);
    assert forall|k: int| 0 <= k < i0 implies 0 <= step_node(#[trigger] plan[k]) < x && (
    plan[k] is SetAttr || plan[k] is SetHtml) by {
        assert(plan[k] == steps_upto(f, x)[k]);
        let (a, b) = choose|a: int, b: int|
            0 <= a < x && 0 <= b < f(a).len() && #[trigger] f(a)[b] == steps_upto(f, x)[k];
    }
    let c = lemma_pending_upto(src, h0, ids, nodes, plan, x, i0);
    let d0 = desc_after(src, h0, ids, plan, i0);
    let d1 = desc_after(src, h0, ids, plan, i0 + 1);
    assert(step_effect(d0, d1, ids, plan[i0], document_node(src)));
    reveal(step_effect);
    assert(nodes[x].element);
    lemma_write_step(d0, d1, c, nodes, ids, x, name, value);
    assert forall|k: int| i0 + 1 <= k < plan.len() implies 0 <= x < step_node(#[trigger] plan[k])
        < nodes.len() && (plan[k] is SetAttr || plan[k] is SetHtml) by {
        let (a, b) = choose|a: int, b: int|
            x + 1 <= a < n && 0 <= b < f(a).len() && #[trigger] f(a)[b] == plan[k];
    }
    let y = lemma_written_from(
        src,
        h0,
        ids,
        nodes,
        plan,
        x,
        name,
        value,
        i0 + 1,
        c,
        plan.len() as int,
    );
    let d = desc_after(src, h0, ids, plan, plan.len() as int);
    lemma_lookup_pairs(d.1[y].attrs@, name);
    y
}

/// Every attribute the plain-value pass writes reads back, unless the pass
/// replaced the content of an ancestor of its node.
proof fn lemma_values_read_back_all(
    src: Seq<char>,
    h0: Seq<Edit>,
    ids: Seq<NodeId>,
    n: Seq<NodeRecord>,
    dm: Json,
)
    requires
        described(src, h0) == (ids, n),
        ids_ok(ids, n, document_node(src)),
        traced(src, h0, ids, value_plan(n, dm)),
    ensures
        ({
            let plan = value_plan(n, dm);
            let after = desc_after(src, h0, ids, plan, plan.len() as int);
            forall|x: int|
                0 <= x < n.len() && no_enclosing_replace(plan, n, x) ==> reads_back_in(
                    after,
                    ids[x],
                    #[trigger] value_steps_at(n, dm, x),
                )
        }),
{
    let plan = value_plan(n, dm);
    let after = desc_after(src, h0, ids, plan, plan.len() as int);
    lemma_value_steps_local(n, dm);
    assert forall|x: int| 0 <= x < n.len() && no_enclosing_replace(plan, n, x) implies reads_back_in(
        after,
        ids[x],
        #[trigger] value_steps_at(n, dm, x),
    ) by {
        let t = value_steps_at(n, dm, x);
        assert(value_step_fn(n, dm)(x) == t);
        assert forall|k: int| 0 <= k < t.len() implies match #[trigger] t[k] {
            Step::SetAttr { name, value, .. } => exists|y: int|
                0 <= y < after.1.len() && #[trigger] after.0[y] == ids[x] && node_attr(
                    after.1[y],
                    name,
                ) == Some(value),
            _ => true,
        } by {
            if let Step::SetAttr { name, value, .. } = t[k] {
                assert(k == 0);
                assert(step_node(t[0]) == x);
                assert(t[0] == (Step::SetAttr { node: x, name, value }));
                let y = lemma_value_read_back(src, h0, ids, n, dm, x, name, value);
                assert(after.0[y] == ids[x]);
            }
        }
    }
}

// ---------------------------------------------------------------------------
// Making the edits
// ---------------------------------------------------------------------------
proof fn lemma_take_last<A>(s: Seq<A>, i: int)
    requires
        0 <= i < s.len(),
    ensures
        s.take(i + 1).drop_last() == s.take(i),
        s.take(i + 1).last() == s[i],
{
    assert(s.take(i + 1).drop_last() =~= s.take(i));
}

/// Fills a web component: the element children of `node` give way to one
/// child per attribute list, each a copy of `template` (printed before the
/// removal) with the attributes set on the elements the selector `tag`
/// selects, the first of which is appended.
fn fill_component(
    page: &mut Page,
    node: NodeId,
    template: NodeId,
    tag: &String,
    attr_lists: &Vec<Vec<(String, String)>>,
)
    ensures
        final(page).source() == old(page).source(),
        final(page).edits() == old(page).edits() + seq![Edit::RemoveElementChildren { node }]
            + Seq::new(
            attr_lists@.len(),
            |i: int|
                Edit::AppendHtml {
                    node,
                    html: component_copy(
                        printed_node(old(page).source(), old(page).edits(), template),
                        tag@,
                        pairs_model(attr_lists@[i]@),
                    ),
                },
        ),
{
    let ghost src = page.source();
    let template_html = node_html(page, template);
    let ghost t = template_html@;
    remove_element_children(page, node);
    let ghost h0 = page.edits();
    let ghost f = |k: int|
        Edit::AppendHtml { node, html: component_copy(t, tag@, pairs_model(attr_lists@[k]@)) };
    assert(page.edits() =~= h0 + Seq::new(0, f));
    let mut i: usize = 0;
    while i < attr_lists.len()
        invariant
            i <= attr_lists@.len(),
            page.source() == src,
            template_html@ == t,
            f == (|k: int|
                Edit::AppendHtml { node, html: component_copy(t, tag@, pairs_model(attr_lists@[k]@)) }),
            page.edits() == h0 + Seq::new(i as nat, f),
        decreases attr_lists@.len() - i,
    {
        let mut child = parse_page(template_html.as_str());
        let matched = match select_page(&child, tag.as_str()) {
            Some(v) => v,
            None => Vec::new(),
        };
        let attrs = &attr_lists[i];
        let ghost pm = pairs_model(attrs@);
        let mut a: usize = 0;
        assert(copy_attr_edits(matched@, pm.take(0)) =~= Seq::<Edit>::empty());
        while a < attrs.len()
            invariant
                a <= attrs@.len(),
                pm == pairs_model(attrs@),
                child.source() == t,
                child.edits() == copy_attr_edits(matched@, pm.take(a as int)),
            decreases attrs@.len() - a,
        {
            let ghost before = child.edits();
            let ghost g = |x: NodeId| Edit::SetAttr { node: x, name: pm[a as int].0, value: pm[a as int].1 };
            let mut m: usize = 0;
            assert(before =~= before + matched@.take(0).map_values(g));
            while m < matched.len()
                invariant
                    m <= matched@.len(),
                    a < attrs@.len(),
                    pm == pairs_model(attrs@),
                    child.source() == t,
                    g == (|x: NodeId| Edit::SetAttr { node: x, name: pm[a as int].0, value: pm[a as int].1 }),
                    child.edits() == before + matched@.take(m as int).map_values(g),
                decreases matched@.len() - m,
            {
                set_attr(&mut child, matched[m], attrs[a].0.as_str(), attrs[a].1.as_str());
                assert(matched@.take(m + 1).map_values(g) =~= matched@.take(m as int).map_values(g).push(
                    g(matched@[m as int]),
                ));
                m = m + 1;
            }
            proof {
                lemma_take_last(pm, a as int);
                assert(matched@.take(matched@.len() as int) =~= matched@);
            }
            a = a + 1;
        }
        proof {
            assert(pm.take(attrs@.len() as int) =~= pm);
        }
        let html = if matched.len() > 0 {
            node_html(&child, matched[0])
        } else {
            String::new()
        };
        assert(html@ == component_copy(t, tag@, pm));
        append_html(page, node, html.as_str());
        assert(Seq::new((i + 1) as nat, f) =~= Seq::new(i as nat, f).push(f(i as int)));
        i = i + 1;
    }
}

/// Makes one edit other than filling a list.
fn apply_edit(page: &mut Page, ids: &Vec<NodeId>, step: &RenderStep)
    requires
        step.within(ids@.len() as int),
        !(step is FillList),
    ensures
        final(page).source() == old(page).source(),
        final(page).edits() == old(page).edits() + plain_step_edits(
            old(page).source(),
            old(page).edits(),
            ids@,
            step.model(),
        ),
        step_effect(
            described(old(page).source(), old(page).edits()),
            described(final(page).source(), final(page).edits()),
            ids@,
            step.model(),
            document_node(old(page).source()),
        ),
{
    reveal(step_effect);
    match step {
        RenderStep::SetAttr { node, name, value } => {
            set_attr(page, ids[*node], name.as_str(), value.as_str());
        },
        RenderStep::SetHtml { node, html } => {
            set_html(page, ids[*node], html.as_str());
        },
        RenderStep::FillComponent { node, template, tag, attr_lists } => {
            fill_component(page, ids[*node], ids[*template], tag, attr_lists);
            assert(step.model()->attr_lists == attr_lists@.map_values(
                |v: Vec<(String, String)>| pairs_model(v@),
            ));
        },
        RenderStep::FillList { .. } => {},
    }
}

/// Makes edits that fill no list, in order.
fn apply_edits(page: &mut Page, ids: &Vec<NodeId>, steps: &Vec<RenderStep>)
    requires
        forall|k: int| 0 <= k < steps@.len() ==> (#[trigger] steps@[k]).within(ids@.len() as int)
            && !(steps@[k] is FillList),
    ensures
        final(page).source() == old(page).source(),
        final(page).edits() == apply_plain(
            old(page).source(),
            old(page).edits(),
            ids@,
            steps_model(steps@),
        ),
        only_attr_steps(steps_model(steps@)) ==> attr_steps_effect(
            described(old(page).source(), old(page).edits()),
            described(final(page).source(), final(page).edits()),
            ids@,
            steps_model(steps@),
        ),
        traced(old(page).source(), old(page).edits(), ids@, steps_model(steps@)),
{
    let ghost src = page.source();
    let ghost h0 = page.edits();
    let ghost d0 = described(src, h0);
    let ghost sm = steps_model(steps@);
    let mut i: usize = 0;
    assert(sm.take(0) =~= Seq::<Step>::empty());
    proof {
        lemma_attr_steps_none(d0, ids@);
    }
    while i < steps.len()
        invariant
            i <= steps@.len(),
            sm == steps_model(steps@),
            forall|k: int| 0 <= k < steps@.len() ==> (#[trigger] steps@[k]).within(ids@.len() as int)
                && !(steps@[k] is FillList),
            page.source() == src,
            d0 == described(src, h0),
            page.edits() == apply_plain(src, h0, ids@, sm.take(i as int)),
            only_attr_steps(sm) ==> attr_steps_effect(
                d0,
                described(src, page.edits()),
                ids@,
                sm.take(i as int),
            ),
            forall|k: int|
                0 <= k < i ==> step_effect(
                    desc_after(src, h0, ids@, sm, k),
                    desc_after(src, h0, ids@, sm, k + 1),
                    ids@,
                    #[trigger] sm[k],
                    document_node(src),
                ),
        decreases steps@.len() - i,
    {
        let ghost before = described(src, page.edits());
        apply_edit(page, ids, &steps[i]);
        proof {
            lemma_take_last(sm, i as int);
            assert(sm.take(i + 1) =~= sm.take(i as int).push(sm[i as int]));
            reveal(desc_after);
            assert(before == desc_after(src, h0, ids@, sm, i as int));
            assert(described(src, page.edits()) == desc_after(src, h0, ids@, sm, i + 1));
            if only_attr_steps(sm) {
                assert(sm[i as int] is SetAttr);
                reveal(step_effect);
                lemma_attr_step(
                    d0,
                    before,
                    described(src, page.edits()),
                    ids@,
                    sm.take(i as int),
                    sm[i as int],
                );
            }
        }
        i = i + 1;
    }
    assert(sm.take(steps@.len() as int) =~= sm);
}

/// Fills a list: the element children of `node` give way to one copy of
/// `template` (printed before the removal) per item, each rendered with the
/// item as its data (its lists, while `depth` allows, then its plain values).
///
/// `depth` bounds how deep lists inside list items are rendered. Each level
/// renders a copy of an element that sits inside a list of the level above,
/// so the number of nodes of the rendered document, which `render_data`
/// gives, bounds the nesting of lists.
fn fill_list(page: &mut Page, node: NodeId, template: NodeId, items: &Vec<JsonValue>, depth: usize)
    ensures
        final(page).source() == old(page).source(),
        final(page).edits() == old(page).edits() + list_fill_edits(
            node,
            printed_node(old(page).source(), old(page).edits(), template),
            values_model(items@),
            depth as int,
        ),
    decreases depth, 0int,
{
    let ghost src = page.source();
    let template_html = node_html(page, template);
    let ghost t = template_html@;
    let ghost im = values_model(items@);
    remove_element_children(page, node);
    let ghost h0 = page.edits();
    let ghost f = |k: int| Edit::AppendHtml { node, html: list_copy(t, im[k], depth as int) };
    assert(page.edits() =~= h0 + Seq::new(0, f));
    let mut i: usize = 0;
    while i < items.len()
        invariant
            i <= items@.len(),
            page.source() == src,
            template_html@ == t,
            im == values_model(items@),
            f == (|k: int| Edit::AppendHtml { node, html: list_copy(t, im[k], depth as int) }),
            page.edits() == h0 + Seq::new(i as nat, f),
        decreases items@.len() - i,
    {
        let mut child = parse_page(template_html.as_str());
        if depth > 0 {
            render_lists(&mut child, &items[i], depth - 1);
        }
        render_values(&mut child, &items[i]);
        let html = print_page(&child);
        assert(html@ == list_copy(t, im[i as int], depth as int));
        append_html(page, node, html.as_str());
        assert(Seq::new((i + 1) as nat, f) =~= Seq::new(i as nat, f).push(f(i as int)));
        i = i + 1;
    }
    assert(list_fill_edits(node, t, im, depth as int) =~= seq![Edit::RemoveElementChildren { node }]
        + Seq::new(items@.len() as nat, f));
}

/// Makes the edits of the list pass, in order.
fn apply_list_edits(page: &mut Page, ids: &Vec<NodeId>, steps: &Vec<RenderStep>, depth: usize)
    requires
        forall|k: int| 0 <= k < steps@.len() ==> (#[trigger] steps@[k]).within(ids@.len() as int),
    ensures
        final(page).source() == old(page).source(),
        final(page).edits() == apply_lists(
            old(page).source(),
            old(page).edits(),
            ids@,
            steps_model(steps@),
            depth as int,
        ),
    decreases depth, 1int,
{
    let ghost src = page.source();
    let ghost h0 = page.edits();
    let ghost sm = steps_model(steps@);
    let mut i: usize = 0;
    assert(sm.take(0) =~= Seq::<Step>::empty());
    while i < steps.len()
        invariant
            i <= steps@.len(),
            sm == steps_model(steps@),
            forall|k: int| 0 <= k < steps@.len() ==> (#[trigger] steps@[k]).within(ids@.len() as int),
            page.source() == src,
            page.edits() == apply_lists(src, h0, ids@, sm.take(i as int), depth as int),
        decreases steps@.len() - i,
    {
        proof {
            lemma_take_last(sm, i as int);
        }
        match &steps[i] {
            RenderStep::FillList { node, template, items } => {
                fill_list(page, ids[*node], ids[*template], items, depth);
            },
            _ => {
                apply_edit(page, ids, &steps[i]);
            },
        }
        i = i + 1;
    }
    assert(sm.take(steps@.len() as int) =~= sm);
}

/// The web-component pass: sets the attributes of each component from its
/// object and fills its children. Returns the number of nodes it read.
///
/// When no component has children to fill, the pass only sets attributes,
/// and the description of the page then has each component's attributes set.
fn render_web_components(page: &mut Page, data: &JsonValue) -> (r: usize)
    ensures
        final(page).source() == old(page).source(),
        final(page).edits() == component_pass(old(page).source(), old(page).edits(), data.model()),
        r == page_nodes(old(page).source(), old(page).edits()).len(),
        only_attr_steps(component_plan(page_nodes(old(page).source(), old(page).edits()), data.model()))
            ==> {
            &&& page_ids(final(page).source(), final(page).edits()) == page_ids(
                old(page).source(),
                old(page).edits(),
            )
            &&& forall|d: int|
                0 <= d < page_nodes(old(page).source(), old(page).edits()).len() ==> reads_back_last(
                    #[trigger] component_steps_at(
                        page_nodes(old(page).source(), old(page).edits()),
                        data.model(),
                        d,
                    ),
                    page_nodes(final(page).source(), final(page).edits())[d],
                )
        },
{
    let ghost src = page.source();
    let (ids, nodes) = describe_page(page);
    let steps = plan_components(&nodes, data);
    apply_edits(page, &ids, &steps);
    proof {
        let n = nodes@;
        let dm = data.model();
        let f = component_step_fn(n, dm);
        let after = described(src, page.edits());
        if only_attr_steps(component_plan(n, dm)) {
            lemma_component_steps_local(n, dm);
            assert forall|d: int| 0 <= d < n.len() implies reads_back_last(
                #[trigger] component_steps_at(n, dm, d),
                after.1[d],
            ) by {
                let t = component_steps_at(n, dm, d);
                assert(f(d) == t);
                if t.len() > 0 {
                    assert(n[d].element);
                    lemma_local_attrs_after(f, ids@, attr_pairs(n[d]), true, d, n.len() as int);
                    assert forall|k: int| 0 <= k < t.len() implies match #[trigger] t[k] {
                        Step::SetAttr { name, value, .. } => (forall|l: int|
                            k < l < t.len() ==> !(#[trigger] t[l] matches Step::SetAttr {
                                name: m,
                                ..
                            } && m == name)) ==> node_attr(after.1[d], name) == Some(value),
                        _ => true,
                    } by {
                        if let Step::SetAttr { name, value, .. } = t[k] {
                            if forall|l: int|
                                k < l < t.len() ==> !(#[trigger] t[l] matches Step::SetAttr {
                                    name: m,
                                    ..
                                } && m == name) {
                                assert forall|i: int| 0 <= i < t.len() implies ids@[step_node(
                                    #[trigger] t[i],
                                )] == ids@[d] by {
                                    assert(step_node(f(d)[i]) == d);
                                }
                                lemma_own_steps_read_back(attr_pairs(n[d]), ids@[d], ids@, t, k);
                                lemma_lookup_pairs(after.1[d].attrs@, name);
                            }
                        }
                    }
                }
            }
        }
    }
    nodes.len()
}

/// The list pass: fills every named list that has an array in `data`.
fn render_lists(page: &mut Page, data: &JsonValue, depth: usize)
    ensures
        final(page).source() == old(page).source(),
        final(page).edits() == list_pass(
            old(page).source(),
            old(page).edits(),
            data.model(),
            depth as int,
        ),
    decreases depth, 2int,
{
    let (ids, nodes) = describe_page(page);
    let steps = plan_lists(&nodes, data);
    apply_list_edits(page, &ids, &steps, depth);
}

/// The plain-value pass: renders each named node that is not a list.
///
/// When every named node takes its value into an attribute (types `image`
/// and `attr:NAME`), the pass only sets attributes: the tree stays as it was,
/// and each such attribute then reads back as the value written.
fn render_values(page: &mut Page, data: &JsonValue)
    ensures
        final(page).source() == old(page).source(),
        final(page).edits() == value_pass(old(page).source(), old(page).edits(), data.model()),
        only_attr_steps(value_plan(page_nodes(old(page).source(), old(page).edits()), data.model()))
            ==> {
            &&& page_ids(final(page).source(), final(page).edits()) == page_ids(
                old(page).source(),
                old(page).edits(),
            )
            &&& forall|d: int|
                0 <= d < page_nodes(old(page).source(), old(page).edits()).len() ==> reads_back(
                    #[trigger] value_steps_at(
                        page_nodes(old(page).source(), old(page).edits()),
                        data.model(),
                        d,
                    ),
                    page_nodes(final(page).source(), final(page).edits())[d],
                )
        },
        forall|x: int|
            0 <= x < page_nodes(old(page).source(), old(page).edits()).len() && no_enclosing_replace(
                value_plan(page_nodes(old(page).source(), old(page).edits()), data.model()),
                page_nodes(old(page).source(), old(page).edits()),
                x,
            ) ==> reads_back_in(
                described(final(page).source(), final(page).edits()),
                page_ids(old(page).source(), old(page).edits())[x],
                #[trigger] value_steps_at(
                    page_nodes(old(page).source(), old(page).edits()),
                    data.model(),
                    x,
                ),
            ),
{
    let ghost src = page.source();
    let ghost h0 = page.edits();
    let (ids, nodes) = describe_page(page);
    let steps = plan_values(&nodes, data);
    apply_edits(page, &ids, &steps);
    proof {
        let n = nodes@;
        let dm = data.model();
        let plan = value_plan(n, dm);
        let after = described(src, page.edits());
        reveal(desc_after);
        assert(plan.take(plan.len() as int) =~= plan);
        assert(after == desc_after(src, h0, ids@, plan, plan.len() as int));
        lemma_values_read_back_all(src, h0, ids@, n, dm);
        if only_attr_steps(value_plan(n, data.model())) {
            assert forall|d: int| 0 <= d < n.len() implies reads_back(
                #[trigger] value_steps_at(n, data.model(), d),
                after.1[d],
            ) by {
                let t = value_steps_at(n, data.model(), d);
                lemma_value_attrs_after(
                    n,
                    data.model(),
                    ids@,
                    attr_pairs(n[d]),
                    n[d].element,
                    d,
                    n.len() as int,
                );
                assert forall|k: int| 0 <= k < t.len() implies match #[trigger] t[k] {
                    Step::SetAttr { name, value, .. } => node_attr(after.1[d], name) == Some(value),
                    _ => true,
                } by {
                    if let Step::SetAttr { name, value, .. } = t[k] {
                        assert(k == 0);
                        assert(n[d].element);
                        lemma_lookup_pairs(after.1[d].attrs@, name);
                        lemma_attrs_set_lookup(attr_pairs(n[d]), name, value, name);
                    }
                }
            }
        }
    }
}

/// Renders `html` with `data`: the web components, then the lists, then the
/// plain values, and prints the document.
///
/// Each attribute that the plain-value pass writes reads back, in the
/// rendered document, as the value written, unless the pass replaced the
/// content of a node that held it.
pub fn render_data(html: &str, data: &JsonValue) -> (r: String)
    ensures
        r@ == rendered(html@, data.model()),
        ({
            let nodes = page_nodes(html@, edits_before_values(html@, data.model()));
            let ids = page_ids(html@, edits_before_values(html@, data.model()));
            forall|x: int|
                0 <= x < nodes.len() && no_enclosing_replace(value_plan(nodes, data.model()), nodes, x)
                    ==> reads_back_in(
                    described(html@, rendered_edits(html@, data.model())),
                    ids[x],
                    #[trigger] value_steps_at(nodes, data.model(), x),
                )
        }),
{
    let mut page = parse_page(html);
    let read = render_web_components(&mut page, data);
    render_lists(&mut page, data, read);
    render_values(&mut page, data);
    print_page(&page)
}

} // verus!
