use fcss::parser::parse;
use fcss::tree::CSS;

fn leaf(k: &str, v: &str) -> (String, CSS) {
    (k.to_string(), CSS::Value(v.to_string()))
}

#[test]
fn entries_render_in_their_forms() {
    let data = CSS::Object(vec![
        leaf("k", "v"),
        ("n".to_string(), CSS::ExtendValue("other".to_string())),
        ("p".to_string(), CSS::Import("q".to_string())),
        (".a".to_string(), CSS::Object(vec![leaf("x", "1px")])),
        ("c".to_string(), CSS::Comment("// c".to_string())),
    ]);
    assert_eq!(data.to_string().unwrap(), "k:v;\n?n;\n@import(q)\n.a{\nx:1px;\n}\nc{\n}\n");
}

#[test]
fn node_that_is_no_mapping_renders_as_nothing() {
    assert_eq!(CSS::Value("v".to_string()).to_string().unwrap(), "");
    assert_eq!(CSS::Import("v".to_string()).to_string().unwrap(), "");
}

#[test]
fn placeholder_passes_through() {
    let (_, data) = parse(".a{ ?foo; bar:1px; }").unwrap();
    let text = data.to_string().unwrap();
    let lines: Vec<&str> = text.lines().collect();
    assert!(lines.contains(&"?foo;"));
    assert!(lines.contains(&"bar:1px;"));
    assert_eq!(text, ".a{\n?foo;\nbar:1px;\n}\n");
}

#[test]
fn rendered_text_parses_to_the_same_tree() {
    let source = ".x a{ .x{ .y{ width:1px; heigt : 1px } .z{ a:b; } } }\n.a{ k:url(x:y) }";
    let (_, data) = parse(source).unwrap();
    let text = data.to_string().unwrap();
    assert_eq!(text, ".x a{\n.x{\n.y{\nwidth:1px;\nheigt:1px;\n}\n.z{\na:b;\n}\n}\n}\n.a{\nk:url(x:y);\n}\n");
    let (rest, again) = parse(text.as_str()).unwrap();
    assert_eq!(rest, "");
    assert_eq!(again, data);
}

#[test]
fn rendered_placeholders_parse_to_the_same_tree() {
    let source = ".d1{ .a1{ ?w-$1; width:1px; ?h-$2 } .b1{ ?w-$1 } }";
    let (_, data) = parse(source).unwrap();
    let text = data.to_string().unwrap();
    assert_eq!(text, ".d1{\n.a1{\n?w-$1;\nwidth:1px;\n?h-$2;\n}\n.b1{\n?w-$1;\n}\n}\n");
    let (rest, again) = parse(text.as_str()).unwrap();
    assert_eq!(rest, "");
    assert_eq!(again, data);
    assert_eq!(again.to_string().unwrap(), text);
}

#[test]
fn text_of_a_property_without_value_does_not_parse_again() {
    let (_, data) = parse(".a{b: ;}").unwrap();
    assert_eq!(data.to_string().unwrap(), ".a{\nb:;\n}\n");
    assert!(parse(".a{\nb:;\n}\n").is_err());
}

#[test]
fn selector_that_begins_like_an_import_is_read_back_where_no_path_ends() {
    let (_, data) = parse("@import(x{a:b}").unwrap();
    let text = data.to_string().unwrap();
    assert_eq!(text, "@import(x{\na:b;\n}\n");
    let (rest, again) = parse(text.as_str()).unwrap();
    assert_eq!(rest, "");
    assert_eq!(again, data);
}

#[test]
fn selector_that_begins_like_an_import_is_read_as_one_where_a_path_ends() {
    let (_, data) = parse("@import(x{a:url(y) }").unwrap();
    match &data {
        CSS::Object(entries) => assert_eq!(entries[0].0, "@import(x"),
        _ => panic!("a document is a mapping"),
    }
    let text = data.to_string().unwrap();
    assert_eq!(text, "@import(x{\na:url(y);\n}\n");
    let (rest, again) = parse(text.as_str()).unwrap();
    assert_eq!(rest, "}\n");
    assert_ne!(again, data);
    assert!(again.have_import());
}
