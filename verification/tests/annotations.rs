use htmlreader::extract_data;
use htmlreader::json::JsonValue;
use htmlreader::render_data;
use serde_json::Value;

/// A JSON value of the library as a `serde_json` value.
fn to_value(v: &JsonValue) -> Value {
    match v {
        JsonValue::Null => Value::Null,
        JsonValue::Bool(b) => Value::Bool(*b),
        JsonValue::Number(n) => serde_json::from_str(n).unwrap(),
        JsonValue::Str(s) => Value::String(s.clone()),
        JsonValue::Array(items) => Value::Array(items.iter().map(to_value).collect()),
        JsonValue::Object(entries) => Value::Object(
            entries
                .iter()
                .map(|(k, v)| (k.clone(), to_value(v)))
                .collect(),
        ),
    }
}

/// A `serde_json` value as a JSON value of the library.
fn from_value(v: &Value) -> JsonValue {
    match v {
        Value::Null => JsonValue::Null,
        Value::Bool(b) => JsonValue::Bool(*b),
        Value::Number(n) => JsonValue::Number(n.to_string()),
        Value::String(s) => JsonValue::Str(s.clone()),
        Value::Array(items) => JsonValue::Array(items.iter().map(from_value).collect()),
        Value::Object(map) => JsonValue::Object(
            map.iter()
                .map(|(k, v)| (k.clone(), from_value(v)))
                .collect(),
        ),
    }
}

fn json(text: &str) -> Value {
    serde_json::from_str(text).unwrap()
}


    #[test]
    fn test_extract_text() {
        let html = r#"<div rmx-name="title" rmx-type="text">Hello World</div>"#;
        let result = to_value(&extract_data(html));
        assert_eq!(result, json(r##"{"title": "Hello World"}"##));
    }

    #[test]
    fn test_extract_text_default_type() {
        let html = r#"<div rmx-name="title">Hello World</div>"#;
        let result = to_value(&extract_data(html));
        assert_eq!(result, json(r##"{"title": "Hello World"}"##));
    }

    #[test]
    fn test_extract_text_with_whitespace() {
        let html = r#"<div rmx-name="title" rmx-type="text">
            Hello World
        </div>"#;
        let result = to_value(&extract_data(html));
        assert_eq!(result, json(r##"{"title": "Hello World"}"##));
    }

    #[test]
    fn test_extract_image() {
        let html = r#"<img rmx-name="avatar" rmx-type="image" src="https://example.com/pic.jpg">"#;
        let result = to_value(&extract_data(html));
        assert_eq!(result, json(r##"{"avatar": "https://example.com/pic.jpg"}"##));
    }

    #[test]
    fn test_extract_image_no_src() {
        let html = r#"<div rmx-name="avatar" rmx-type="image"></div>"#;
        let result = to_value(&extract_data(html));
        assert_eq!(result, json(r##"{"avatar": null}"##));
    }

    #[test]
    fn test_extract_multiple_fields() {
        let html = r#"
            <div>
                <h1 rmx-name="title" rmx-type="text">My Title</h1>
                <img rmx-name="image" rmx-type="image" src="https://example.com/img.png">
                <p rmx-name="description" rmx-type="text">Some description</p>
            </div>
        "#;
        let result = to_value(&extract_data(html));
        assert_eq!(
            result,
            json(r##"{
                "title": "My Title",
                "image": "https://example.com/img.png",
                "description": "Some description"
            }"##)
        );
    }

    #[test]
    fn test_extract_list() {
        let html = r#"
            <ul rmx-name="items" rmx-type="list">
                <li>
                    <span rmx-name="name" rmx-type="text">Item 1</span>
                    <img rmx-name="icon" rmx-type="image" src="https://example.com/1.png">
                </li>
                <li>
                    <span rmx-name="name" rmx-type="text">Item 2</span>
                    <img rmx-name="icon" rmx-type="image" src="https://example.com/2.png">
                </li>
            </ul>
        "#;
        let result = to_value(&extract_data(html));
        assert_eq!(
            result,
            json(r##"{
                "items": [
                    {"name": "Item 1", "icon": "https://example.com/1.png"},
                    {"name": "Item 2", "icon": "https://example.com/2.png"}
                ]
            }"##)
        );
    }

    #[test]
    fn test_extract_empty_list() {
        let html = r#"<ul rmx-name="items" rmx-type="list"></ul>"#;
        let result = to_value(&extract_data(html));
        assert_eq!(result, json(r##"{"items": []}"##));
    }

    #[test]
    fn test_nested_text() {
        let html = r#"<div rmx-name="content" rmx-type="text"><span>Hello</span> <strong>World</strong></div>"#;
        let result = to_value(&extract_data(html));
        assert_eq!(result, json(r##"{"content": "Hello World"}"##));
    }

    #[test]
    fn test_no_rmx_attributes() {
        let html = r#"<div>Just some regular HTML</div>"#;
        let result = to_value(&extract_data(html));
        assert_eq!(result, json(r##"{}"##));
    }

    #[test]
    fn test_unknown_type_defaults_to_text() {
        let html = r#"<div rmx-name="field" rmx-type="unknown">Content</div>"#;
        let result = to_value(&extract_data(html));
        assert_eq!(result, json(r##"{"field": "Content"}"##));
    }

    #[test]
    fn test_extract_attr_href() {
        let html =
            r#"<a rmx-name="link" rmx-type="attr:href" href="https://example.com">Click</a>"#;
        let result = to_value(&extract_data(html));
        assert_eq!(result, json(r##"{"link": "https://example.com"}"##));
    }

    #[test]
    fn test_extract_attr_data_attribute() {
        let html = r#"<div rmx-name="item_id" rmx-type="attr:data-id" data-id="12345">Item</div>"#;
        let result = to_value(&extract_data(html));
        assert_eq!(result, json(r##"{"item_id": "12345"}"##));
    }

    #[test]
    fn test_extract_attr_missing() {
        let html = r#"<div rmx-name="missing" rmx-type="attr:data-foo">Content</div>"#;
        let result = to_value(&extract_data(html));
        assert_eq!(result, json(r##"{"missing": null}"##));
    }

    #[test]
    fn test_extract_attr_class() {
        let html =
            r#"<div rmx-name="classes" rmx-type="attr:class" class="foo bar baz">Content</div>"#;
        let result = to_value(&extract_data(html));
        assert_eq!(result, json(r##"{"classes": "foo bar baz"}"##));
    }

    #[test]
    fn test_nested_list_in_list_item() {
        let html = r#"
            <ul rmx-name="categories" rmx-type="list">
                <li>
                    <span rmx-name="name">Electronics</span>
                    <ul rmx-name="products" rmx-type="list">
                        <li>
                            <span rmx-name="title">Phone</span>
                            <span rmx-name="price">$999</span>
                        </li>
                        <li>
                            <span rmx-name="title">Laptop</span>
                            <span rmx-name="price">$1499</span>
                        </li>
                    </ul>
                </li>
                <li>
                    <span rmx-name="name">Books</span>
                    <ul rmx-name="products" rmx-type="list">
                        <li>
                            <span rmx-name="title">Novel</span>
                            <span rmx-name="price">$15</span>
                        </li>
                    </ul>
                </li>
            </ul>
        "#;
        let result = to_value(&extract_data(html));
        assert_eq!(
            result,
            json(r##"{
                "categories": [
                    {
                        "name": "Electronics",
                        "products": [
                            {"title": "Phone", "price": "$999"},
                            {"title": "Laptop", "price": "$1499"}
                        ]
                    },
                    {
                        "name": "Books",
                        "products": [
                            {"title": "Novel", "price": "$15"}
                        ]
                    }
                ]
            }"##)
        );
    }

    #[test]
    fn test_deeply_nested_structure() {
        let html = r#"
            <div rmx-name="store" rmx-type="list">
                <div>
                    <span rmx-name="department">Clothing</span>
                    <div rmx-name="sections" rmx-type="list">
                        <div>
                            <span rmx-name="section">Men</span>
                            <div rmx-name="items" rmx-type="list">
                                <div>
                                    <span rmx-name="item">Shirt</span>
                                </div>
                            </div>
                        </div>
                    </div>
                </div>
            </div>
        "#;
        let result = to_value(&extract_data(html));
        assert_eq!(
            result,
            json(r##"{
                "store": [
                    {
                        "department": "Clothing",
                        "sections": [
                            {
                                "section": "Men",
                                "items": [
                                    {"item": "Shirt"}
                                ]
                            }
                        ]
                    }
                ]
            }"##)
        );
    }

    #[test]
    fn test_five_levels_deep() {
        let html = r#"
            <div rmx-name="l1" rmx-type="list">
                <div>
                    <span rmx-name="a">1</span>
                    <div rmx-name="l2" rmx-type="list">
                        <div>
                            <span rmx-name="b">2</span>
                            <div rmx-name="l3" rmx-type="list">
                                <div>
                                    <span rmx-name="c">3</span>
                                    <div rmx-name="l4" rmx-type="list">
                                        <div>
                                            <span rmx-name="d">4</span>
                                            <div rmx-name="l5" rmx-type="list">
                                                <div>
                                                    <span rmx-name="e">5</span>
                                                </div>
                                            </div>
                                        </div>
                                    </div>
                                </div>
                            </div>
                        </div>
                    </div>
                </div>
            </div>
        "#;
        let result = to_value(&extract_data(html));
        assert_eq!(
            result,
            json(r##"{
                "l1": [
                    {
                        "a": "1",
                        "l2": [
                            {
                                "b": "2",
                                "l3": [
                                    {
                                        "c": "3",
                                        "l4": [
                                            {
                                                "d": "4",
                                                "l5": [
                                                    {"e": "5"}
                                                ]
                                            }
                                        ]
                                    }
                                ]
                            }
                        ]
                    }
                ]
            }"##)
        );
    }

    // ========================================================================
    // Render tests
    // ========================================================================

    #[test]
    fn test_render_text() {
        let template = r#"<div rmx-name="title" rmx-type="text">Placeholder</div>"#;
        let data = json(r##"{"title": "Hello World"}"##);
        let result = render_data(template, &from_value(&data));
        assert!(result.contains("Hello World"));
        assert!(!result.contains("Placeholder"));
    }

    #[test]
    fn test_render_image() {
        let template = r#"<img rmx-name="pic" rmx-type="image" src="old.jpg">"#;
        let data = json(r##"{"pic": "new.png"}"##);
        let result = render_data(template, &from_value(&data));
        assert!(result.contains(r#"src="new.png""#));
        assert!(!result.contains("old.jpg"));
    }

    #[test]
    fn test_render_attr() {
        let template = r#"<a rmx-name="link" rmx-type="attr:href" href="http://old.com">Click</a>"#;
        let data = json(r##"{"link": "http://new.com"}"##);
        let result = render_data(template, &from_value(&data));
        assert!(result.contains(r#"href="http://new.com""#));
        assert!(!result.contains("http://old.com"));
    }

    #[test]
    fn test_render_list_same_count() {
        let template = r#"<ul rmx-name="items" rmx-type="list"><li><span rmx-name="name" rmx-type="text">X</span></li></ul>"#;
        let data = json(r##"{"items": [{"name": "A"}, {"name": "B"}]}"##);
        let result = render_data(template, &from_value(&data));
        assert!(result.contains("A"));
        assert!(result.contains("B"));
        assert!(!result.contains("X"));
    }

    #[test]
    fn test_render_list_more_items() {
        let template = r#"<ul rmx-name="items" rmx-type="list"><li><span rmx-name="n" rmx-type="text">X</span></li></ul>"#;
        let data = json(r##"{"items": [{"n": "1"}, {"n": "2"}, {"n": "3"}, {"n": "4"}]}"##);
        let result = render_data(template, &from_value(&data));
        assert!(result.contains("1"));
        assert!(result.contains("2"));
        assert!(result.contains("3"));
        assert!(result.contains("4"));
    }

    #[test]
    fn test_render_list_fewer_items() {
        let template = r#"<ul rmx-name="items" rmx-type="list"><li><span rmx-name="n" rmx-type="text">X</span></li><li><span rmx-name="n" rmx-type="text">Y</span></li></ul>"#;
        let data = json(r##"{"items": [{"n": "Only"}]}"##);
        let result = render_data(template, &from_value(&data));
        assert!(result.contains("Only"));
        // Should only have one li now
        assert_eq!(result.matches("<li>").count(), 1);
    }

    #[test]
    fn test_render_empty_list() {
        let template = r#"<ul rmx-name="items" rmx-type="list"><li><span rmx-name="n" rmx-type="text">X</span></li></ul>"#;
        let data = json(r##"{"items": []}"##);
        let result = render_data(template, &from_value(&data));
        assert!(!result.contains("<li>"));
    }

    #[test]
    fn test_render_nested_list() {
        let template = r#"
            <div rmx-name="categories" rmx-type="list">
                <div>
                    <span rmx-name="name" rmx-type="text">Cat</span>
                    <ul rmx-name="products" rmx-type="list">
                        <li><span rmx-name="title" rmx-type="text">Prod</span></li>
                    </ul>
                </div>
            </div>
        "#;
        let data = json(r##"{
            "categories": [
                {
                    "name": "Electronics",
                    "products": [
                        {"title": "Phone"},
                        {"title": "Laptop"}
                    ]
                },
                {
                    "name": "Books",
                    "products": [
                        {"title": "Novel"}
                    ]
                }
            ]
        }"##);
        let result = render_data(template, &from_value(&data));
        assert!(result.contains("Electronics"));
        assert!(result.contains("Books"));
        assert!(result.contains("Phone"));
        assert!(result.contains("Laptop"));
        assert!(result.contains("Novel"));
    }

    #[test]
    fn test_render_roundtrip() {
        let template = r#"<div rmx-name="title" rmx-type="text">X</div>"#;
        let data = json(r##"{"title": "Test"}"##);
        let rendered = render_data(template, &from_value(&data));
        let extracted = to_value(&extract_data(&rendered));
        assert_eq!(extracted, data);
    }

    #[test]
    fn test_render_list_roundtrip() {
        let template = r#"<ul rmx-name="items" rmx-type="list"><li><span rmx-name="name" rmx-type="text">X</span><span rmx-name="value" rmx-type="text">Y</span></li></ul>"#;
        let data = json(r##"{"items": [{"name": "A", "value": "1"}, {"name": "B", "value": "2"}]}"##);
        let rendered = render_data(template, &from_value(&data));
        let extracted = to_value(&extract_data(&rendered));
        assert_eq!(extracted, data);
    }

    #[test]
    fn test_render_preserves_other_content() {
        let template = r#"<div class="wrapper"><h1>Title</h1><p rmx-name="desc" rmx-type="text">Old</p><footer>Footer</footer></div>"#;
        let data = json(r##"{"desc": "New Description"}"##);
        let result = render_data(template, &from_value(&data));
        assert!(result.contains("class=\"wrapper\""));
        assert!(result.contains("<h1>Title</h1>"));
        assert!(result.contains("<footer>Footer</footer>"));
        assert!(result.contains("New Description"));
    }

    #[test]
    fn test_two_level_nested_roundtrip() {
        // Template with two levels of nesting: categories -> products
        let template = r##"
            <div rmx-name="categories" rmx-type="list">
                <div>
                    <span rmx-name="category_name" rmx-type="text">Category</span>
                    <img rmx-name="category_icon" rmx-type="image" src="icon.png">
                    <ul rmx-name="products" rmx-type="list">
                        <li>
                            <span rmx-name="product_name" rmx-type="text">Product</span>
                            <span rmx-name="price" rmx-type="text">$0</span>
                            <a rmx-name="link" rmx-type="attr:href" href="#">Buy</a>
                        </li>
                    </ul>
                </div>
            </div>
        "##;

        let data = json(r##"{
            "categories": [
                {
                    "category_name": "Electronics",
                    "category_icon": "https://example.com/electronics.png",
                    "products": [
                        {"product_name": "Phone", "price": "$999", "link": "https://example.com/phone"},
                        {"product_name": "Laptop", "price": "$1499", "link": "https://example.com/laptop"},
                        {"product_name": "Tablet", "price": "$599", "link": "https://example.com/tablet"}
                    ]
                },
                {
                    "category_name": "Books",
                    "category_icon": "https://example.com/books.png",
                    "products": [
                        {"product_name": "Novel", "price": "$15", "link": "https://example.com/novel"},
                        {"product_name": "Textbook", "price": "$80", "link": "https://example.com/textbook"}
                    ]
                }
            ]
        }"##);

        // Render the template with data
        let rendered = render_data(template, &from_value(&data));

        // Verify rendered content contains expected values
        assert!(rendered.contains("Electronics"));
        assert!(rendered.contains("Books"));
        assert!(rendered.contains("Phone"));
        assert!(rendered.contains("Laptop"));
        assert!(rendered.contains("Tablet"));
        assert!(rendered.contains("Novel"));
        assert!(rendered.contains("Textbook"));
        assert!(rendered.contains("$999"));
        assert!(rendered.contains("$1499"));
        assert!(rendered.contains("https://example.com/electronics.png"));
        assert!(rendered.contains("https://example.com/phone"));

        // Round-trip: extract from rendered HTML
        let extracted = to_value(&extract_data(&rendered));

        // Verify the extracted data matches the data rendered
        assert_eq!(extracted, data);
    }

    #[test]
    fn test_two_level_nested_different_item_counts() {
        // Test that nested lists can have different numbers of items
        let template = r#"
            <div rmx-name="groups" rmx-type="list">
                <div>
                    <span rmx-name="group" rmx-type="text">G</span>
                    <ul rmx-name="members" rmx-type="list">
                        <li><span rmx-name="name" rmx-type="text">M</span></li>
                    </ul>
                </div>
            </div>
        "#;

        let data = json(r##"{
            "groups": [
                {
                    "group": "Team A",
                    "members": [
                        {"name": "Alice"},
                        {"name": "Bob"},
                        {"name": "Charlie"}
                    ]
                },
                {
                    "group": "Team B",
                    "members": [
                        {"name": "David"}
                    ]
                },
                {
                    "group": "Team C",
                    "members": [
                        {"name": "Eve"},
                        {"name": "Frank"}
                    ]
                }
            ]
        }"##);

        let rendered = render_data(template, &from_value(&data));
        let extracted = to_value(&extract_data(&rendered));
        assert_eq!(extracted, data);
    }

    // ========================================================================
    // Web component tests
    // ========================================================================

    #[test]
    fn test_extract_web_component_attributes() {
        let html = r#"<my-button data-rmx="button" label="Click me" variant="primary" disabled="true"></my-button>"#;
        let result = to_value(&extract_data(html));
        assert_eq!(
            result,
            json(r##"{
                "button": {
                    "label": "Click me",
                    "variant": "primary",
                    "disabled": "true"
                }
            }"##)
        );
    }

    #[test]
    fn test_extract_web_component_with_children() {
        let html = r#"
            <image-carousel data-rmx="carousel" speed="500" autoplay="true">
                <img src="img1.png" alt="First">
                <img src="img2.png" alt="Second">
                <img src="img3.png" alt="Third">
            </image-carousel>
        "#;
        let result = to_value(&extract_data(html));
        assert_eq!(
            result,
            json(r##"{
                "carousel": {
                    "speed": "500",
                    "autoplay": "true",
                    "children": [
                        {"src": "img1.png", "alt": "First"},
                        {"src": "img2.png", "alt": "Second"},
                        {"src": "img3.png", "alt": "Third"}
                    ]
                }
            }"##)
        );
    }

    #[test]
    fn test_render_web_component_attributes() {
        let template = r#"<my-button data-rmx="btn" label="Old" variant="secondary"></my-button>"#;
        let data = json(r##"{
            "btn": {
                "label": "New Label",
                "variant": "primary"
            }
        }"##);
        let result = render_data(template, &from_value(&data));
        assert!(result.contains(r#"label="New Label""#));
        assert!(result.contains(r#"variant="primary""#));
    }

    #[test]
    fn test_render_web_component_children() {
        let template = r#"
            <image-carousel data-rmx="carousel" speed="300">
                <img src="placeholder.png" alt="Placeholder">
            </image-carousel>
        "#;
        let data = json(r##"{
            "carousel": {
                "speed": "500",
                "children": [
                    {"src": "a.png", "alt": "Image A"},
                    {"src": "b.png", "alt": "Image B"}
                ]
            }
        }"##);
        let result = render_data(template, &from_value(&data));
        assert!(result.contains(r#"speed="500""#));
        assert!(result.contains(r#"src="a.png""#));
        assert!(result.contains(r#"src="b.png""#));
        assert!(result.contains(r#"alt="Image A""#));
        assert!(result.contains(r#"alt="Image B""#));
        assert!(!result.contains("placeholder.png"));
    }

    #[test]
    fn test_web_component_roundtrip() {
        let template = r#"
            <custom-tabs data-rmx="tabs" active="0">
                <div slot="tab" title="Tab 1"></div>
            </custom-tabs>
        "#;
        let data = json(r##"{
            "tabs": {
                "active": "2",
                "children": [
                    {"slot": "tab", "title": "Home"},
                    {"slot": "tab", "title": "About"},
                    {"slot": "tab", "title": "Contact"}
                ]
            }
        }"##);
        let rendered = render_data(template, &from_value(&data));
        let extracted = to_value(&extract_data(&rendered));
        assert_eq!(extracted, data);
    }

    #[test]
    fn test_web_component_no_children() {
        let html = r#"<my-icon data-rmx="icon" name="star" size="24"></my-icon>"#;
        let result = to_value(&extract_data(html));
        assert_eq!(
            result,
            json(r##"{
                "icon": {
                    "name": "star",
                    "size": "24"
                }
            }"##)
        );

        // Render and roundtrip
        let data = json(r##"{
            "icon": {
                "name": "heart",
                "size": "32"
            }
        }"##);
        let rendered = render_data(html, &from_value(&data));
        assert!(rendered.contains(r#"name="heart""#));
        assert!(rendered.contains(r#"size="32""#));
    }

