use htmlreader::dom::{find_subtree_end, get_attr, NodeRecord};
use htmlreader::extract::{extract_data, extract_from_nodes, extract_list, extract_value};
use htmlreader::json::{
    key_before, object_get, object_insert, str_equal, to_json_text, JsonValue,
};
use htmlreader::render::{
    find_first_element_child, plan_components, plan_lists, plan_values,
    render_data, value_text, RenderStep,
};
use htmlreader::sections::{organize_into_sections, place};
use htmlreader::text::{chars_of, trim};

fn element(depth: usize, name: &str, attrs: &[(&str, &str)], text: &str) -> NodeRecord {
    NodeRecord {
        depth,
        element: true,
        name: name.to_string(),
        attrs: attrs.iter().map(|(k, v)| (k.to_string(), v.to_string())).collect(),
        text: text.to_string(),
    }
}

fn text_node(depth: usize, text: &str) -> NodeRecord {
    NodeRecord {
        depth,
        element: false,
        name: String::new(),
        attrs: Vec::new(),
        text: text.to_string(),
    }
}

fn s(v: &str) -> JsonValue {
    JsonValue::Str(v.to_string())
}

fn obj(entries: Vec<(&str, JsonValue)>) -> JsonValue {
    let mut out = Vec::new();
    for (k, v) in entries {
        object_insert(&mut out, k.to_string(), v);
    }
    JsonValue::Object(out)
}

fn keys(v: &JsonValue) -> Vec<String> {
    match v {
        JsonValue::Object(e) => e.iter().map(|(k, _)| k.clone()).collect(),
        _ => panic!("not an object"),
    }
}

fn get<'a>(v: &'a JsonValue, key: &str) -> &'a JsonValue {
    v.get(key).unwrap()
}

fn as_str(v: &JsonValue) -> &str {
    match v {
        JsonValue::Str(s) => s.as_str(),
        _ => panic!("not a string"),
    }
}

// ---------------------------------------------------------------------------
// Text
// ---------------------------------------------------------------------------

#[test]
fn trim_removes_unicode_white_space() {
    assert_eq!(trim("\u{3000}\t  a b \n\u{a0}"), "a b");
    assert_eq!(trim("   "), "");
    assert_eq!(trim(""), "");
    assert_eq!(trim("x"), "x");
    assert_eq!(trim("\u{200b}x\u{200b}"), "\u{200b}x\u{200b}");
}

#[test]
fn chars_of_keeps_every_character() {
    assert_eq!(chars_of("aé😀"), vec!['a', 'é', '😀']);
}

// ---------------------------------------------------------------------------
// JSON
// ---------------------------------------------------------------------------

#[test]
fn key_order_is_byte_order() {
    assert!(key_before("a", "b"));
    assert!(key_before("a", "ab"));
    assert!(!key_before("ab", "a"));
    assert!(!key_before("a", "a"));
    assert!(key_before("Z", "a"));
    assert!(key_before("z", "é"));
    assert!(key_before("", "a"));
}

#[test]
fn insert_keeps_keys_sorted_and_replaces() {
    let mut e = Vec::new();
    object_insert(&mut e, "b".to_string(), s("1"));
    object_insert(&mut e, "a".to_string(), s("2"));
    object_insert(&mut e, "c".to_string(), s("3"));
    object_insert(&mut e, "b".to_string(), s("4"));
    let ks: Vec<&str> = e.iter().map(|(k, _)| k.as_str()).collect();
    assert_eq!(ks, vec!["a", "b", "c"]);
    assert_eq!(as_str(object_get(&e, "b").unwrap()), "4");
    assert_eq!(as_str(object_get(&e, "a").unwrap()), "2");
    assert!(object_get(&e, "d").is_none());
}

#[test]
fn get_reads_objects_only() {
    let v = obj(vec![("k", s("v"))]);
    assert_eq!(as_str(v.get("k").unwrap()), "v");
    assert!(v.get("x").is_none());
    assert!(s("k").get("k").is_none());
    assert!(JsonValue::Array(vec![]).get("k").is_none());
}

#[test]
fn str_equal_compares_text() {
    assert!(str_equal("abc", "abc"));
    assert!(!str_equal("abc", "abd"));
    assert!(!str_equal("abc", "ab"));
}

#[test]
fn json_text_is_compact_and_escaped() {
    assert_eq!(to_json_text(&JsonValue::Null), "null");
    assert_eq!(to_json_text(&JsonValue::Bool(true)), "true");
    assert_eq!(to_json_text(&JsonValue::Bool(false)), "false");
    assert_eq!(to_json_text(&JsonValue::Number("1.5".to_string())), "1.5");
    assert_eq!(
        to_json_text(&s("a\"b\\c\n\t\r\u{8}\u{c}\u{1}\u{1f}é")),
        "\"a\\\"b\\\\c\\n\\t\\r\\b\\f\\u0001\\u001fé\""
    );
    let v = obj(vec![
        ("b", JsonValue::Array(vec![JsonValue::Number("1".to_string()), JsonValue::Null])),
        ("a", obj(vec![])),
    ]);
    assert_eq!(to_json_text(&v), "{\"a\":{},\"b\":[1,null]}");
}

#[test]
fn json_text_matches_serde_json() {
    let text = r#"{"z":[1,2.5,-3,true,null],"a":{"x":"q\"\u0002\\"},"m":"é"}"#;
    let value: serde_json::Value = serde_json::from_str(text).unwrap();
    let mut ours = Vec::new();
    if let serde_json::Value::Object(map) = &value {
        for (k, v) in map {
            object_insert(&mut ours, k.clone(), convert(v));
        }
    }
    assert_eq!(to_json_text(&JsonValue::Object(ours)), value.to_string());
}

fn convert(v: &serde_json::Value) -> JsonValue {
    match v {
        serde_json::Value::Null => JsonValue::Null,
        serde_json::Value::Bool(b) => JsonValue::Bool(*b),
        serde_json::Value::Number(n) => JsonValue::Number(n.to_string()),
        serde_json::Value::String(t) => JsonValue::Str(t.clone()),
        serde_json::Value::Array(a) => JsonValue::Array(a.iter().map(convert).collect()),
        serde_json::Value::Object(m) => {
            let mut e = Vec::new();
            for (k, v) in m {
                object_insert(&mut e, k.clone(), convert(v));
            }
            JsonValue::Object(e)
        }
    }
}

#[test]
fn duplicate_copies_deeply() {
    let v = obj(vec![("a", JsonValue::Array(vec![s("x"), obj(vec![("b", s("y"))])]))]);
    let c = v.duplicate();
    assert_eq!(to_json_text(&c), to_json_text(&v));
}

// ---------------------------------------------------------------------------
// Descriptions
// ---------------------------------------------------------------------------

fn sample_list() -> Vec<NodeRecord> {
    // <ul rmx-name="items" rmx-type="list">
    //   <li><span rmx-name="n">A</span><ul rmx-type="list"><li><span rmx-name="n">B</span></li></ul></li>
    //   <li></li>
    // </ul>
    // <p rmx-name="n">Top</p>
    vec![
        element(1, "ul", &[("rmx-name", "items"), ("rmx-type", "list")], "AB"),
        element(2, "li", &[], "AB"),
        element(3, "span", &[("rmx-name", "n")], "A"),
        text_node(4, "A"),
        element(3, "ul", &[("rmx-type", "list")], "B"),
        element(4, "li", &[], "B"),
        element(5, "span", &[("rmx-name", "n")], "B"),
        text_node(6, "B"),
        element(2, "li", &[], ""),
        element(1, "p", &[("rmx-name", "n")], " Top "),
        text_node(2, " Top "),
    ]
}

#[test]
fn subtree_and_children() {
    let nodes = sample_list();
    assert_eq!(find_subtree_end(&nodes, 0), 9);
    assert_eq!(find_subtree_end(&nodes, 1), 8);
    assert_eq!(find_subtree_end(&nodes, 9), 11);
    assert_eq!(find_first_element_child(&nodes, 0), Some(1));
    assert_eq!(find_first_element_child(&nodes, 2), None);
    assert_eq!(get_attr(&nodes[0], "rmx-type").map(|s| s.as_str()), Some("list"));
    assert!(get_attr(&nodes[3], "rmx-type").is_none());
}

#[test]
fn list_items_skip_nested_lists_and_empty_items() {
    let nodes = sample_list();
    let items = extract_list(&nodes, 0);
    assert_eq!(items.len(), 1);
    assert_eq!(as_str(get(&items[0], "n")), "A");
    assert_eq!(keys(&items[0]), vec!["n"]);
}

#[test]
fn named_nodes_inside_lists_stay_out_of_the_top_level() {
    let nodes = sample_list();
    let v = extract_from_nodes(&nodes);
    assert_eq!(keys(&v), vec!["items", "n"]);
    assert_eq!(as_str(get(&v, "n")), "Top");
}

#[test]
fn a_later_name_wins() {
    let nodes = vec![
        element(1, "p", &[("rmx-name", "x")], "first"),
        element(1, "p", &[("rmx-name", "x")], "second"),
    ];
    let v = extract_from_nodes(&nodes);
    assert_eq!(as_str(get(&v, "x")), "second");
}

#[test]
fn a_component_takes_its_name_over_an_element() {
    let nodes = vec![
        element(1, "p", &[("rmx-name", "x")], "text"),
        element(1, "my-a", &[("data-rmx", "x"), ("k", "1")], ""),
        element(1, "my-b", &[("data-rmx", "x"), ("k", "2")], ""),
    ];
    let v = extract_from_nodes(&nodes);
    assert_eq!(keys(&v), vec!["x"]);
    assert_eq!(as_str(get(get(&v, "x"), "k")), "2");
}

#[test]
fn image_is_attr_src() {
    let nodes = vec![
        element(1, "img", &[("rmx-name", "a"), ("rmx-type", "image"), ("src", "s.png")], ""),
        element(1, "img", &[("rmx-name", "b"), ("rmx-type", "attr:src"), ("src", "s.png")], ""),
        element(1, "img", &[("rmx-name", "c"), ("rmx-type", "image")], ""),
    ];
    assert_eq!(as_str(&extract_value(&nodes, 0)), "s.png");
    assert_eq!(as_str(&extract_value(&nodes, 1)), "s.png");
    assert!(matches!(extract_value(&nodes, 2), JsonValue::Null));
}

#[test]
fn missing_empty_and_unknown_types_give_text() {
    let nodes = vec![
        element(1, "p", &[("rmx-name", "a")], " t "),
        element(1, "p", &[("rmx-name", "b"), ("rmx-type", "")], " t "),
        element(1, "p", &[("rmx-name", "c"), ("rmx-type", "weird")], " t "),
        element(1, "p", &[("rmx-name", "d"), ("rmx-type", "attr:")], " t "),
    ];
    for i in 0..3 {
        assert_eq!(as_str(&extract_value(&nodes, i)), "t");
    }
    assert!(matches!(extract_value(&nodes, 3), JsonValue::Null));
}

#[test]
fn component_object_leaves_out_data_rmx() {
    let nodes = vec![
        element(1, "my-box", &[("data-rmx", "box"), ("size", "2"), ("children", "x")], ""),
        element(2, "img", &[("src", "a.png")], ""),
        element(2, "span", &[], ""),
        element(3, "img", &[("src", "deep.png")], ""),
    ];
    let v = extract_from_nodes(&nodes);
    let b = get(&v, "box");
    assert_eq!(keys(b), vec!["children", "size"]);
    match get(b, "children") {
        JsonValue::Array(kids) => {
            assert_eq!(kids.len(), 1);
            assert_eq!(as_str(get(&kids[0], "src")), "a.png");
        }
        _ => panic!("children is not an array"),
    }
}

#[test]
fn extract_data_reads_the_parsed_document() {
    let v = extract_data(r#"<p rmx-name="a" rmx-type="attr:title" title="T">x</p><my-x data-rmx="c" k="v"></my-x>"#);
    assert_eq!(keys(&v), vec!["a", "c"]);
    assert_eq!(as_str(get(&v, "a")), "T");
    assert_eq!(as_str(get(get(&v, "c"), "k")), "v");
}

// ---------------------------------------------------------------------------
// Rendering plans
// ---------------------------------------------------------------------------

#[test]
fn value_plan_dispatches_on_type() {
    let nodes = vec![
        element(1, "p", &[("rmx-name", "t")], ""),
        element(1, "img", &[("rmx-name", "i"), ("rmx-type", "image")], ""),
        element(1, "a", &[("rmx-name", "h"), ("rmx-type", "attr:href")], ""),
        element(1, "ul", &[("rmx-name", "l"), ("rmx-type", "list")], ""),
        element(1, "p", &[("rmx-name", "z")], ""),
        element(1, "p", &[("rmx-name", "n")], ""),
        element(1, "p", &[("rmx-name", "missing")], ""),
    ];
    let data = obj(vec![
        ("t", s("T")),
        ("i", s("I")),
        ("h", s("H")),
        ("l", s("L")),
        ("z", JsonValue::Null),
        ("n", JsonValue::Number("7".to_string())),
    ]);
    let steps = plan_values(&nodes, &data);
    assert_eq!(steps.len(), 4);
    assert!(matches!(&steps[0], RenderStep::SetHtml { node: 0, html } if html == "T"));
    assert!(matches!(&steps[1], RenderStep::SetAttr { node: 1, name, value } if name == "src" && value == "I"));
    assert!(matches!(&steps[2], RenderStep::SetAttr { node: 2, name, value } if name == "href" && value == "H"));
    assert!(matches!(&steps[3], RenderStep::SetHtml { node: 5, html } if html == "7"));
}

#[test]
fn value_text_by_kind() {
    assert_eq!(value_text(&s("x")), Some("x".to_string()));
    assert_eq!(value_text(&JsonValue::Null), None);
    assert_eq!(value_text(&JsonValue::Bool(false)), Some("false".to_string()));
    assert_eq!(
        value_text(&JsonValue::Array(vec![s("a")])),
        Some("[\"a\"]".to_string())
    );
}

#[test]
fn list_plan_fills_named_lists_with_arrays() {
    let nodes = sample_list();
    let data = obj(vec![("items", JsonValue::Array(vec![s("1"), s("2")]))]);
    let steps = plan_lists(&nodes, &data);
    assert_eq!(steps.len(), 1);
    match &steps[0] {
        RenderStep::FillList { node, template, items } => {
            assert_eq!((*node, *template, items.len()), (0, 1, 2));
        }
        _ => panic!("not a list fill"),
    }
    assert!(plan_lists(&nodes, &obj(vec![("items", s("x"))])).is_empty());
}

#[test]
fn component_plan_sets_string_attributes_and_children() {
    let nodes = vec![
        element(1, "my-box", &[("data-rmx", "box")], ""),
        text_node(2, " "),
        element(2, "img", &[("src", "p.png")], ""),
    ];
    let data = obj(vec![(
        "box",
        obj(vec![
            ("size", s("3")),
            ("flag", JsonValue::Bool(true)),
            (
                "children",
                JsonValue::Array(vec![obj(vec![("src", s("a.png")), ("n", JsonValue::Null)]), s("skip")]),
            ),
        ]),
    )]);
    let steps = plan_components(&nodes, &data);
    assert_eq!(steps.len(), 2);
    assert!(matches!(&steps[0], RenderStep::SetAttr { node: 0, name, value } if name == "size" && value == "3"));
    match &steps[1] {
        RenderStep::FillComponent { node, template, tag, attr_lists } => {
            assert_eq!((*node, *template, tag.as_str()), (0, 2, "img"));
            assert_eq!(attr_lists.len(), 1);
            assert_eq!(attr_lists[0], vec![("src".to_string(), "a.png".to_string())]);
        }
        _ => panic!("not a component fill"),
    }
}

#[test]
fn render_sets_text_attributes_and_lists() {
    let template = r#"<div><p rmx-name="t">old</p><a rmx-name="h" rmx-type="attr:href" href="x">k</a><ul rmx-name="l" rmx-type="list"><li rmx-name="v">x</li></ul></div>"#;
    let data = obj(vec![
        ("t", s("new")),
        ("h", s("http://y")),
        ("l", JsonValue::Array(vec![obj(vec![("v", s("one"))]), obj(vec![("v", s("two"))])])),
    ]);
    let out = render_data(template, &data);
    assert!(out.contains("<p rmx-name=\"t\">new</p>"));
    assert!(out.contains("href=\"http://y\""));
    assert!(out.contains(">one</li>"));
    assert!(out.contains(">two</li>"));
    assert!(!out.contains("old"));
}

#[test]
fn data_that_names_nothing_changes_nothing() {
    let template = r#"<div><p rmx-name="t">old</p><my-card data-rmx="c" size="1"><b>x</b></my-card><ul rmx-name="l" rmx-type="list"><li rmx-name="v">x</li></ul></div>"#;
    let empty = render_data(template, &JsonValue::Object(vec![]));
    let unrelated = obj(vec![("other", s("value")), ("more", JsonValue::Array(vec![]))]);
    assert_eq!(render_data(template, &unrelated), empty);
    assert_eq!(render_data(template, &s("not an object")), empty);
    assert_eq!(render_data(template, &JsonValue::Null), empty);
    assert!(empty.contains("<p rmx-name=\"t\">old</p>"));
    assert!(empty.contains(r#"size="1""#));
}

#[test]
fn attributes_read_back_beside_replaced_text() {
    let template = r#"<div><p rmx-name="t">old</p><a rmx-name="h" rmx-type="attr:href" href="x">k</a><span rmx-name="u">old</span></div>"#;
    let data = obj(vec![("t", s("new")), ("h", s("http://y")), ("u", s("later"))]);
    let out = render_data(template, &data);
    let back = extract_data(&out);
    assert_eq!(as_str(get(&back, "h")), "http://y");
    assert_eq!(as_str(get(&back, "t")), "new");
    assert_eq!(as_str(get(&back, "u")), "later");
}

#[test]
fn replacing_an_enclosing_node_drops_what_it_held() {
    let template = r#"<div rmx-name="outer"><img rmx-name="pic" rmx-type="image" src="a.png"></div>"#;
    let data = obj(vec![("outer", s("plain")), ("pic", s("b.png"))]);
    let out = render_data(template, &data);
    assert!(out.contains(">plain</div>"));
    assert!(!out.contains("b.png"));
    assert!(!out.contains("a.png"));
}

#[test]
fn a_list_item_that_is_not_an_object_copies_the_template() {
    let template = r#"<ul rmx-name="l" rmx-type="list"><li rmx-name="v">orig</li></ul>"#;
    let data = obj(vec![("l", JsonValue::Array(vec![s("plain"), obj(vec![("v", s("new"))])]))]);
    let out = render_data(template, &data);
    assert!(out.contains(r#"<li rmx-name="v">orig</li>"#));
    assert!(out.contains(r#"<li rmx-name="v">new</li>"#));
    assert_eq!(out.matches("<li").count(), 2);
}

#[test]
fn attribute_values_read_back_after_rendering() {
    let template = r#"<div><img rmx-name="pic" rmx-type="image" src="old.jpg"><a rmx-name="link" rmx-type="attr:href">k</a></div>"#;
    let data = obj(vec![("pic", s("new.png")), ("link", s("http://new.com"))]);
    let out = render_data(template, &data);
    assert!(out.contains(r#"src="new.png""#));
    assert!(out.contains(r#"href="http://new.com""#));
    assert!(!out.contains("old.jpg"));
    let back = extract_data(&out);
    assert_eq!(as_str(get(&back, "pic")), "new.png");
    assert_eq!(as_str(get(&back, "link")), "http://new.com");
}

// ---------------------------------------------------------------------------
// Sections
// ---------------------------------------------------------------------------

#[test]
fn place_by_prefix() {
    assert_eq!(place("hero_title"), (2, "title".to_string()));
    assert_eq!(place("patterns_badge"), (3, "badge".to_string()));
    assert_eq!(place("patterns"), (3, "items".to_string()));
    assert_eq!(place("experiences_x"), (4, "x".to_string()));
    assert_eq!(place("experiences"), (4, "items".to_string()));
    assert_eq!(place("cta_a"), (5, "a".to_string()));
    assert_eq!(place("footer_b"), (6, "b".to_string()));
    assert_eq!(place("nav_links"), (1, "links".to_string()));
    assert_eq!(place("page_title"), (0, "page_title".to_string()));
    assert_eq!(place("hero"), (0, "hero".to_string()));
}

#[test]
fn organize_groups_into_seven_sections() {
    let data = obj(vec![
        ("hero_title", s("H")),
        ("patterns", JsonValue::Array(vec![])),
        ("company_name", s("C")),
        ("nav_links", s("N")),
    ]);
    let out = organize_into_sections(&data);
    assert_eq!(
        keys(&out),
        vec!["cta", "experiences", "footer", "hero", "meta", "nav", "patterns"]
    );
    assert_eq!(as_str(get(get(&out, "hero"), "title")), "H");
    assert_eq!(as_str(get(get(&out, "meta"), "company_name")), "C");
    assert_eq!(as_str(get(get(&out, "nav"), "links")), "N");
    assert!(matches!(get(get(&out, "patterns"), "items"), JsonValue::Array(_)));
    assert_eq!(keys(get(&out, "cta")), Vec::<String>::new());
}

#[test]
fn organize_leaves_other_values() {
    assert_eq!(to_json_text(&organize_into_sections(&s("x"))), "\"x\"");
}
