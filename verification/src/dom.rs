//! The parsed HTML document: `dom_query` parses, edits and prints it; the
//! library reads it through a description of its nodes.
use dom_query::{Document, Matcher, NodeId, NodeRef, Selection};
use vstd::prelude::*;

verus! {

#[verifier::external_type_specification]
#[verifier::external_body]
pub struct ExDocument(Document);

#[verifier::external_type_specification]
#[verifier::external_body]
pub struct ExNodeId(NodeId);

/// What the library reads of one node of a parsed document.
///
/// A document is described by the list of its nodes below the document node,
/// in document order (each node before its descendants, children in order).
/// The `depth` of a node is its number of ancestors, the document node
/// included, so that the descendants of the node at `i` are the nodes that
/// follow it up to the first one whose depth is not greater.
pub struct NodeRecord {
    pub depth: usize,
    /// Whether the node is an element.
    pub element: bool,
    /// The local name of an element; empty for other nodes.
    pub name: String,
    /// The attributes of an element as (local name, value), in their order.
    pub attrs: Vec<(String, String)>,
    /// All the text of the node and of its descendants, in document order.
    pub text: String,
}

/// The description of the document that `Document::from` parses out of `html`.
pub uninterp spec fn parsed_nodes(html: Seq<char>) -> Seq<NodeRecord>;

/// Parses `html` with `dom_query::Document::from` and describes its nodes:
/// `NodeRef::descendants` of the document node, each with the length of
/// `NodeRef::ancestors(None)`, `is_element`, `node_name`, `attrs` and `text`.
/// The result is a function of `html` alone (the parser is deterministic);
/// nothing more is stated of it.
#[verifier::external_body]
pub(crate) fn describe_html(html: &str) -> (r: Vec<NodeRecord>)
    ensures
        r@ == parsed_nodes(html@),
{
    let doc = Document::from(html);
    let nodes = doc.root().descendants();
    nodes.iter().map(|n| NodeRecord {
        depth: n.ancestors(None).len(),
        element: n.is_element(),
        name: n.node_name().map_or(String::new(), |s| s.to_string()),
        attrs: n.attrs().iter().map(|a| (a.name.local.to_string(), a.value.to_string())).collect(),
        text: n.text().to_string(),
    }).collect()
}

/// An edit that `dom_query` makes to a document.
pub enum Edit {
    /// `Selection::set_attr` on the node.
    SetAttr { node: NodeId, name: Seq<char>, value: Seq<char> },
    /// `Selection::set_html` on the node.
    SetHtml { node: NodeId, html: Seq<char> },
    /// `Selection::children` then `Selection::remove` on the node.
    RemoveElementChildren { node: NodeId },
    /// `Selection::append_html` on the node.
    AppendHtml { node: NodeId, html: Seq<char> },
}

/// A document parsed from `source` and then edited by `edits`, in order.
///
/// Only the functions of this module make or edit a page, and each edit it
/// makes goes onto `edits`: the document is `Document::from(source)` with
/// those edits made to it. `dom_query` is deterministic, so what is read from
/// the document is a function of `source` and `edits`.
pub struct Page {
    doc: Document,
    source: Ghost<Seq<char>>,
    edits: Ghost<Seq<Edit>>,
}

impl Page {
    pub closed spec fn source(&self) -> Seq<char> {
        self.source@
    }

    pub closed spec fn edits(&self) -> Seq<Edit> {
        self.edits@
    }
}

/// The node ids and the description (as `describe_html` gives it) of the
/// document parsed from `source` and edited by `edits`.
pub uninterp spec fn described(source: Seq<char>, edits: Seq<Edit>) -> (Seq<NodeId>, Seq<NodeRecord>);

/// What `Document::html` prints of the document parsed from `source` and
/// edited by `edits`.
pub uninterp spec fn printed(source: Seq<char>, edits: Seq<Edit>) -> Seq<char>;

/// What `NodeRef::html` prints of the node `node` of the document parsed from
/// `source` and edited by `edits`.
pub uninterp spec fn printed_node(source: Seq<char>, edits: Seq<Edit>, node: NodeId) -> Seq<char>;

/// The id of the document node of the page parsed from `source`: the root of
/// its tree, which no edit moves or replaces.
pub uninterp spec fn document_node(source: Seq<char>) -> NodeId;

/// The ids of the nodes that the CSS selector `selector` selects in the
/// document parsed from `source` and edited by `edits`, in document order;
/// `None` when `selector` is not a valid selector.
pub uninterp spec fn selected(source: Seq<char>, edits: Seq<Edit>, selector: Seq<char>) -> Option<
    Seq<NodeId>,
>;

/// Parses `html` as a whole document (`dom_query::Document::from`), with no
/// edits yet.
#[verifier::external_body]
pub(crate) fn parse_page(html: &str) -> (r: Page)
    ensures
        r.source() == html@,
        r.edits() == Seq::<Edit>::empty(),
{
    Page { doc: Document::from(html), source: Ghost(html@), edits: Ghost(Seq::empty()) }
}

/// The ids and the description of the nodes of the page as it stands, walked
/// as `describe_html` walks them (`NodeRef::descendants` of the document
/// node): the two lists have the same length and are what `described` names,
/// the walk of a tree meets no node twice, and the walk of the descendants
/// leaves out the document node itself.
#[verifier::external_body]
pub(crate) fn describe_page(page: &Page) -> (r: (Vec<NodeId>, Vec<NodeRecord>))
    ensures
        (r.0@, r.1@) == described(page.source(), page.edits()),
        r.0@.len() == r.1@.len(),
        r.0@.no_duplicates(),
        !r.0@.contains(document_node(page.source())),
{
    let nodes = page.doc.root().descendants();
    let ids = nodes.iter().map(|n| n.id).collect();
    (ids, nodes.iter().map(|n| NodeRecord {
        depth: n.ancestors(None).len(),
        element: n.is_element(),
        name: n.node_name().map_or(String::new(), |s| s.to_string()),
        attrs: n.attrs().iter().map(|a| (a.name.local.to_string(), a.value.to_string())).collect(),
        text: n.text().to_string(),
    }).collect())
}

/// The HTML of the node `id` and its descendants (`NodeRef::html`; printing
/// into memory does not fail).
#[verifier::external_body]
pub(crate) fn node_html(page: &Page, id: NodeId) -> (r: String)
    ensures
        r@ == printed_node(page.source(), page.edits(), id),
{
    NodeRef::new(id, &page.doc.tree).html().to_string()
}

/// The HTML of the whole page (`Document::html`).
#[verifier::external_body]
pub(crate) fn print_page(page: &Page) -> (r: String)
    ensures
        r@ == printed(page.source(), page.edits()),
{
    page.doc.html().to_string()
}

/// The ids of the nodes that `selector` selects (`Matcher::new`, then
/// `Document::select_matcher`); `None` when `Matcher::new` refuses it.
#[verifier::external_body]
pub(crate) fn select_page(page: &Page, selector: &str) -> (r: Option<Vec<NodeId>>)
    ensures
        match r {
            Some(v) => Some(v@),
            None => None,
        } == selected(page.source(), page.edits(), selector@),
{
    Matcher::new(selector).ok().map(|m| page.doc.select_matcher(&m).nodes().iter().map(|n| n.id).collect())
}

/// Pairs of strings as pairs of their texts.
pub open spec fn pairs_model(v: Seq<(String, String)>) -> Seq<(Seq<char>, Seq<char>)> {
    v.map_values(|p: (String, String)| (p.0@, p.1@))
}

/// The attributes of a node as (name, value) pairs.
pub open spec fn attr_pairs(n: NodeRecord) -> Seq<(Seq<char>, Seq<char>)> {
    pairs_model(n.attrs@)
}

/// The attributes after `Element::set_attr(name, value)`: the first one named
/// `name` takes the value; without one, the attribute is appended.
pub open spec fn attrs_set(
    attrs: Seq<(Seq<char>, Seq<char>)>,
    name: Seq<char>,
    value: Seq<char>,
) -> Seq<(Seq<char>, Seq<char>)>
    decreases attrs.len(),
{
    if attrs.len() == 0 {
        seq![(name, value)]
    } else if attrs[0].0 == name {
        attrs.update(0, (name, value))
    } else {
        seq![attrs[0]] + attrs_set(attrs.drop_first(), name, value)
    }
}

/// Two descriptions of a node agree in all but the attributes.
pub open spec fn same_but_attrs(a: NodeRecord, b: NodeRecord) -> bool {
    &&& a.depth == b.depth
    &&& a.element == b.element
    &&& a.name@ == b.name@
    &&& a.text@ == b.text@
}

/// What setting the attribute `name` of the node `id` to `value` does to the
/// ids and the description of a document: the tree is the same, and only the
/// attributes of that node change, when it is an element.
pub open spec fn attr_edit_effect(
    before: (Seq<NodeId>, Seq<NodeRecord>),
    after: (Seq<NodeId>, Seq<NodeRecord>),
    id: NodeId,
    name: Seq<char>,
    value: Seq<char>,
) -> bool {
    &&& after.0 == before.0
    &&& after.1.len() == before.1.len()
    &&& forall|k: int|
        0 <= k < before.1.len() ==> same_but_attrs(#[trigger] after.1[k], before.1[k]) && attr_pairs(
            after.1[k],
        ) == if before.0[k] == id && before.1[k].element {
            attrs_set(attr_pairs(before.1[k]), name, value)
        } else {
            attr_pairs(before.1[k])
        }
}

/// Sets the attribute `name` of the node `id` to `value`
/// (`Selection::set_attr` on that node, which calls `Element::set_attr` when
/// the node is an element and changes nothing else of the tree).
#[verifier::external_body]
pub(crate) fn set_attr(page: &mut Page, id: NodeId, name: &str, value: &str)
    ensures
        final(page).source() == old(page).source(),
        final(page).edits() == old(page).edits().push(Edit::SetAttr { node: id, name: name@, value: value@ }),
        attr_edit_effect(
            described(old(page).source(), old(page).edits()),
            described(final(page).source(), final(page).edits()),
            id,
            name@,
            value@,
        ),
{
    Selection::from(NodeRef::new(id, &page.doc.tree)).set_attr(name, value)
}

/// Two descriptions of a node agree in everything.
pub open spec fn same_node(a: NodeRecord, b: NodeRecord) -> bool {
    same_but_attrs(a, b) && attr_pairs(a) == attr_pairs(b)
}

/// Two descriptions of a node agree in all but the text.
pub open spec fn same_shape(a: NodeRecord, b: NodeRecord) -> bool {
    &&& a.depth == b.depth
    &&& a.element == b.element
    &&& a.name@ == b.name@
    &&& attr_pairs(a) == attr_pairs(b)
}

/// How a document stands after the content of the node at `p` changed: the
/// first `kept` nodes (`p + 1` of them when the content was replaced, the
/// whole subtree of `p` when it was added to) stay where they were, then come
/// the new nodes, all deeper than `p`, then the nodes after the subtree of
/// `p`, in order. Every node that stays keeps its record, but the text of `p`
/// and of its ancestors, which is left unstated.
pub open spec fn content_layout(
    before: (Seq<NodeId>, Seq<NodeRecord>),
    after: (Seq<NodeId>, Seq<NodeRecord>),
    p: int,
    kept: int,
) -> bool {
    let e = subtree_end(before.1, p);
    let m = after.1.len() - (before.1.len() - e);
    &&& after.0.len() == after.1.len()
    &&& kept <= m <= after.1.len()
    &&& forall|k: int|
        0 <= k < kept ==> after.0[k] == before.0[k] && same_shape(#[trigger] after.1[k], before.1[k])
            && (!(k <= p < subtree_end(before.1, k)) ==> after.1[k].text@ == before.1[k].text@)
    &&& forall|j: int| kept <= j < m ==> (#[trigger] after.1[j]).depth > before.1[p].depth
    &&& forall|j: int|
        m <= j < after.1.len() ==> after.0[j] == before.0[j - m + e] && same_node(
            #[trigger] after.1[j],
            before.1[j - m + e],
        )
}

/// What changing the content of the node `id` does to the ids and the
/// description of a document whose document node is `root`: where `id` is the
/// node at `p` (a walk of a tree meets a node once), the document stands as
/// `content_layout` says, the content of `p` replaced (`append` false) or
/// added to (`append` true); when `id` is neither in the document nor its
/// document node, the document is as it was.
pub open spec fn content_effect(
    before: (Seq<NodeId>, Seq<NodeRecord>),
    after: (Seq<NodeId>, Seq<NodeRecord>),
    id: NodeId,
    root: NodeId,
    append: bool,
) -> bool {
    &&& forall|p: int|
        0 <= p < before.0.len() && before.0.len() == before.1.len() && #[trigger] before.0[p] == id
            ==> content_layout(
            before,
            after,
            p,
            if append {
                subtree_end(before.1, p)
            } else {
                p + 1
            },
        )
    &&& (!before.0.contains(id) && id != root) ==> {
        &&& after.0 == before.0
        &&& after.1.len() == before.1.len()
        &&& forall|k: int| 0 <= k < before.1.len() ==> same_node(#[trigger] after.1[k], before.1[k])
    }
}

/// Replaces the content of the node `id` by `html`, parsed as a fragment
/// (`Selection::set_html` on that node: its children are detached, then the
/// nodes of the fragment appended as its children; nothing else of the tree
/// moves).
#[verifier::external_body]
pub(crate) fn set_html(page: &mut Page, id: NodeId, html: &str)
    ensures
        final(page).source() == old(page).source(),
        final(page).edits() == old(page).edits().push(Edit::SetHtml { node: id, html: html@ }),
        content_effect(
            described(old(page).source(), old(page).edits()),
            described(final(page).source(), final(page).edits()),
            id,
            document_node(old(page).source()),
            false,
        ),
{
    Selection::from(NodeRef::new(id, &page.doc.tree)).set_html(html)
}

/// Appends `html`, parsed as a fragment, to the content of the node `id`
/// (`Selection::append_html` on that node: the nodes of the fragment become
/// its last children; nothing else of the tree moves).
#[verifier::external_body]
pub(crate) fn append_html(page: &mut Page, id: NodeId, html: &str)
    ensures
        final(page).source() == old(page).source(),
        final(page).edits() == old(page).edits().push(Edit::AppendHtml { node: id, html: html@ }),
        content_effect(
            described(old(page).source(), old(page).edits()),
            described(final(page).source(), final(page).edits()),
            id,
            document_node(old(page).source()),
            true,
        ),
{
    Selection::from(NodeRef::new(id, &page.doc.tree)).append_html(html)
}

/// The node at `k` lies in the subtree of an element child of the node at `p`.
pub open spec fn under_element_child(nodes: Seq<NodeRecord>, p: int, k: int) -> bool {
    exists|c: int| #[trigger] is_element_child(nodes, p, c) && c <= k < subtree_end(nodes, c)
}

/// The places, from `j` on and in order, of the nodes that stay when the
/// element children of the node at `p` are removed with their subtrees.
pub open spec fn kept_from(nodes: Seq<NodeRecord>, p: int, j: int) -> Seq<int>
    decreases nodes.len() - j,
{
    if j < 0 || j >= nodes.len() {
        Seq::empty()
    } else if under_element_child(nodes, p, j) {
        kept_from(nodes, p, j + 1)
    } else {
        seq![j] + kept_from(nodes, p, j + 1)
    }
}

/// What removing the element children of the node `id` does to the ids and
/// the description of a document. When `id` is the node at `p`, the subtrees
/// of its element children go and the other nodes stay, in order, each with
/// its depth, kind, name and attributes; each keeps its text too, but for `p`
/// and its ancestors, whose text loses the removed text (that is left
/// unstated). When `id` is neither in the document nor its document node
/// `root`, the document is as it was.
pub open spec fn removal_effect(
    before: (Seq<NodeId>, Seq<NodeRecord>),
    after: (Seq<NodeId>, Seq<NodeRecord>),
    id: NodeId,
    root: NodeId,
) -> bool {
    if exists|p: int| 0 <= p < before.0.len() && #[trigger] before.0[p] == id {
        let p = choose|p: int| 0 <= p < before.0.len() && #[trigger] before.0[p] == id;
        let kept = kept_from(before.1, p, 0);
        &&& after.0 == kept.map_values(|k: int| before.0[k])
        &&& after.1.len() == kept.len()
        &&& forall|i: int|
            0 <= i < kept.len() ==> {
                let k = kept[i];
                &&& (#[trigger] after.1[i]).depth == before.1[k].depth
                &&& after.1[i].element == before.1[k].element
                &&& after.1[i].name@ == before.1[k].name@
                &&& attr_pairs(after.1[i]) == attr_pairs(before.1[k])
                &&& !(k <= p < subtree_end(before.1, k)) ==> after.1[i].text@ == before.1[k].text@
            }
    } else {
        id != root ==> {
            &&& after.0 == before.0
            &&& after.1.len() == before.1.len()
            &&& forall|k: int|
                0 <= k < before.1.len() ==> same_node(#[trigger] after.1[k], before.1[k])
        }
    }
}

/// Removes the element children of the node `id` from the document
/// (`Selection::children`, which gathers the element children, then
/// `Selection::remove`, which detaches each from its parent).
#[verifier::external_body]
pub(crate) fn remove_element_children(page: &mut Page, id: NodeId)
    ensures
        final(page).source() == old(page).source(),
        final(page).edits() == old(page).edits().push(Edit::RemoveElementChildren { node: id }),
        removal_effect(
            described(old(page).source(), old(page).edits()),
            described(final(page).source(), final(page).edits()),
            id,
            document_node(old(page).source()),
        ),
{
    Selection::from(NodeRef::new(id, &page.doc.tree)).children().remove()
}

// ---------------------------------------------------------------------------
// Reading a description
// ---------------------------------------------------------------------------
/// The value of the first attribute named `name`.
pub open spec fn attr_lookup(attrs: Seq<(String, String)>, name: Seq<char>) -> Option<Seq<char>>
    decreases attrs.len(),
{
    if attrs.len() == 0 {
        None
    } else if attrs[0].0@ == name {
        Some(attrs[0].1@)
    } else {
        attr_lookup(attrs.drop_first(), name)
    }
}

/// The value of the first pair named `name`.
pub open spec fn pair_lookup(a: Seq<(Seq<char>, Seq<char>)>, name: Seq<char>) -> Option<Seq<char>>
    decreases a.len(),
{
    if a.len() == 0 {
        None
    } else if a[0].0 == name {
        Some(a[0].1)
    } else {
        pair_lookup(a.drop_first(), name)
    }
}

/// Looking an attribute up in a node's list reads as looking it up in its pairs.
pub proof fn lemma_lookup_pairs(attrs: Seq<(String, String)>, name: Seq<char>)
    ensures
        attr_lookup(attrs, name) == pair_lookup(pairs_model(attrs), name),
    decreases attrs.len(),
{
    if attrs.len() > 0 {
        assert(pairs_model(attrs).drop_first() =~= pairs_model(attrs.drop_first()));
        lemma_lookup_pairs(attrs.drop_first(), name);
    }
}

/// After an attribute is set, it reads back as the value set, and every other
/// attribute reads as before.
pub proof fn lemma_attrs_set_lookup(
    a: Seq<(Seq<char>, Seq<char>)>,
    name: Seq<char>,
    value: Seq<char>,
    other: Seq<char>,
)
    ensures
        pair_lookup(attrs_set(a, name, value), name) == Some(value),
        other != name ==> pair_lookup(attrs_set(a, name, value), other) == pair_lookup(a, other),
    decreases a.len(),
{
    let r = attrs_set(a, name, value);
    if a.len() == 0 {
        assert(r[0] == (name, value));
        assert(r.drop_first() =~= Seq::<(Seq<char>, Seq<char>)>::empty());
        assert(pair_lookup(r.drop_first(), other) == None::<Seq<char>>);
    } else {
        if a[0].0 == name {
            assert(r[0] == (name, value));
            assert(r.drop_first() =~= a.drop_first());
        } else {
            assert(r[0] == a[0]);
            assert(r.drop_first() =~= attrs_set(a.drop_first(), name, value));
            lemma_attrs_set_lookup(a.drop_first(), name, value, other);
        }
    }
}

/// The attribute `name` of a node; only elements have attributes.
pub open spec fn node_attr(n: NodeRecord, name: Seq<char>) -> Option<Seq<char>> {
    if n.element {
        attr_lookup(n.attrs@, name)
    } else {
        None
    }
}

/// The attribute `name` of a node (`NodeRef::attr`).
pub fn get_attr<'a>(n: &'a NodeRecord, name: &str) -> (r: Option<&'a String>)
    ensures
        node_attr(*n, name@) == match r {
            Some(v) => Some(v@),
            None => None,
        },
{
    if !n.element {
        return None;
    }
    let attrs = &n.attrs;
    let mut i: usize = 0;
    assert(attrs@.skip(0) =~= attrs@);
    while i < attrs.len()
        invariant
            i <= attrs@.len(),
            attrs == &n.attrs,
            n.element,
            attr_lookup(attrs@, name@) == attr_lookup(attrs@.skip(i as int), name@),
        decreases attrs@.len() - i,
    {
        assert(attrs@.skip(i as int)[0] == attrs@[i as int]);
        if crate::json::str_equal(attrs[i].0.as_str(), name) {
            return Some(&attrs[i].1);
        }
        assert(attrs@.skip(i as int).drop_first() =~= attrs@.skip(i + 1));
        i = i + 1;
    }
    None
}

/// The first index after `j - 1` whose node is not deeper than the node at `i`.
pub open spec fn end_from(nodes: Seq<NodeRecord>, i: int, j: int) -> int
    decreases nodes.len() - j,
{
    if j >= nodes.len() || nodes[j].depth <= nodes[i].depth {
        j
    } else {
        end_from(nodes, i, j + 1)
    }
}

/// The end of the subtree of the node at `i`: its descendants are the nodes
/// at `i + 1 .. subtree_end(nodes, i)`.
pub open spec fn subtree_end(nodes: Seq<NodeRecord>, i: int) -> int {
    end_from(nodes, i, i + 1)
}

/// The node at `c` is an element child of the node at `p`.
pub open spec fn is_element_child(nodes: Seq<NodeRecord>, p: int, c: int) -> bool {
    &&& p < c < subtree_end(nodes, p)
    &&& nodes[c].depth == nodes[p].depth + 1
    &&& nodes[c].element
}

pub proof fn lemma_end_from(nodes: Seq<NodeRecord>, i: int, j: int)
    requires
        0 <= i < nodes.len(),
        i < j <= nodes.len(),
    ensures
        j <= end_from(nodes, i, j) <= nodes.len(),
        forall|k: int| j <= k < end_from(nodes, i, j) ==> nodes[k].depth > nodes[i].depth,
        end_from(nodes, i, j) < nodes.len() ==> nodes[end_from(nodes, i, j)].depth
            <= nodes[i].depth,
    decreases nodes.len() - j,
{
    if j < nodes.len() && nodes[j].depth > nodes[i].depth {
        lemma_end_from(nodes, i, j + 1);
    }
}

/// The subtree of the node at `i` ends after it and within the list; all
/// nodes in it are deeper, and the node at its end is not.
pub proof fn lemma_subtree_end(nodes: Seq<NodeRecord>, i: int)
    requires
        0 <= i < nodes.len(),
    ensures
        i < subtree_end(nodes, i) <= nodes.len(),
        forall|k: int| i < k < subtree_end(nodes, i) ==> nodes[k].depth > nodes[i].depth,
        subtree_end(nodes, i) < nodes.len() ==> nodes[subtree_end(nodes, i)].depth
            <= nodes[i].depth,
{
    lemma_end_from(nodes, i, i + 1);
}

/// Where the subtree of the node at `i` ends.
pub fn find_subtree_end(nodes: &Vec<NodeRecord>, i: usize) -> (r: usize)
    requires
        i < nodes@.len(),
    ensures
        r == subtree_end(nodes@, i as int),
        i < r <= nodes@.len(),
{
    proof {
        lemma_subtree_end(nodes@, i as int);
    }
    let d = nodes[i].depth;
    let len = nodes.len();
    let mut j = i + 1;
    while j < nodes.len() && nodes[j].depth > d
        invariant
            i < j <= nodes@.len(),
            d == nodes@[i as int].depth,
            end_from(nodes@, i as int, j as int) == subtree_end(nodes@, i as int),
        decreases nodes@.len() - j,
    {
        j = j + 1;
    }
    j
}

} // verus!
