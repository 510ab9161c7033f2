use fcss::error::CssError;
use fcss::grammar::Construct;
use fcss::parser::parse;
use fcss::tree::CSS;

fn leaf(k: &str, v: &str) -> (String, CSS) {
    (k.to_string(), CSS::Value(v.to_string()))
}

fn marker(k: &str) -> (String, CSS) {
    (k.to_string(), CSS::ExtendValue(k.to_string()))
}

fn block(k: &str, entries: Vec<(String, CSS)>) -> (String, CSS) {
    (k.to_string(), CSS::Object(entries))
}

fn tree(text: &str) -> CSS {
    let (rest, tree) = parse(text).unwrap();
    assert_eq!(rest, "");
    tree
}

const SAMPLE: &str = "
        .x a{
            .x{
                .x{
                    .y{
                      width:1px;
                            heigt:1px;
                     ?h-$2

                    }
                    .x{
                      width:1px;
                            heigt:1px;
                    }
                }
            }
        }
        .a{
                            width:1px;
                            heigt:1px;

        }
 .b{
                            width:1px;
                            heigt:1px

        }
 .c{
                            heigt:1px;

        }
        .d1{
            .a1{
                ?w-$1;
                width:1px;
                 ?h-$2
            }
            .b1{
                ?w-$1;
                 ?h-$2
            }
            .c1{
                 .a1{
                    ?w-$1;
                     ?h-$2
                }
            }
        }
        .e2{
            .a2{
                ?w-$1;
                 ?h-$2
            }
            .b2{
                ?w-$1;
                 ?h-$2
            }
        }
    ";

#[test]
#[allow(non_snake_case)]
fn testNewCSS() {
    let data = parse(SAMPLE);
    assert!(data.is_ok());
    println!("done");
}

#[test]
fn sample_parses_to_its_six_blocks() {
    let data = tree(SAMPLE);
    let size = vec![leaf("width", "1px"), leaf("heigt", "1px")];
    let both = vec![marker("w-$1"), marker("h-$2")];
    let expected = CSS::Object(vec![
        block(
            ".x a",
            vec![block(
                ".x",
                vec![block(
                    ".x",
                    vec![
                        block(
                            ".y",
                            vec![leaf("width", "1px"), leaf("heigt", "1px"), marker("h-$2")],
                        ),
                        block(".x", vec![leaf("width", "1px"), leaf("heigt", "1px")]),
                    ],
                )],
            )],
        ),
        block(".a", vec![leaf("width", "1px"), leaf("heigt", "1px")]),
        block(".b", size),
        block(".c", vec![leaf("heigt", "1px")]),
        block(
            ".d1",
            vec![
                block(".a1", vec![marker("w-$1"), leaf("width", "1px"), marker("h-$2")]),
                block(".b1", vec![marker("w-$1"), marker("h-$2")]),
                block(".c1", vec![block(".a1", vec![marker("w-$1"), marker("h-$2")])]),
            ],
        ),
        block(".e2", vec![block(".a2", vec![marker("w-$1"), marker("h-$2")]), block(".b2", both)]),
    ]);
    assert_eq!(data, expected);
}

#[test]
fn last_statement_may_end_with_or_without_semicolon() {
    let with = tree(".a{k1:v1;k2:v2;}");
    let without = tree(".a{k1:v1;k2:v2}");
    let expected = CSS::Object(vec![block(".a", vec![leaf("k1", "v1"), leaf("k2", "v2")])]);
    assert_eq!(with, expected);
    assert_eq!(without, expected);
    assert_eq!(with, without);
}

#[test]
fn semicolon_before_brace_is_swallowed_across_blanks() {
    let data = tree(".a{ k1 : v1 ;\n\t k2 : v2 ; \r\n }");
    assert_eq!(data, CSS::Object(vec![block(".a", vec![leaf("k1", "v1"), leaf("k2", "v2")])]));
}

#[test]
fn comment_contributes_no_key() {
    let data = tree("// note\n.a{k:v}");
    assert_eq!(data, CSS::Object(vec![block(".a", vec![leaf("k", "v")])]));
    match data {
        CSS::Object(entries) => assert_eq!(entries.len(), 1),
        _ => panic!("a document is a mapping"),
    }
}

#[test]
fn document_of_comments_is_an_empty_mapping() {
    assert_eq!(tree("// one\n// two"), CSS::Object(vec![]));
}

#[test]
fn import_is_keyed_by_its_trimmed_path() {
    let data = tree("@import( a/b.reg );\n.a{k:v}");
    let expected = CSS::Object(vec![
        ("a/b.reg".to_string(), CSS::Import("a/b.reg".to_string())),
        block(".a", vec![leaf("k", "v")]),
    ]);
    assert_eq!(data, expected);
}

#[test]
fn import_path_may_hold_colons_and_blanks_may_precede_the_semicolon() {
    let data = tree("@import(c:/x/y.reg) ;");
    assert_eq!(
        data,
        CSS::Object(vec![("c:/x/y.reg".to_string(), CSS::Import("c:/x/y.reg".to_string()))])
    );
}

#[test]
fn import_without_closing_parenthesis_is_no_import() {
    match parse("@import(a;") {
        Err(CssError::Syntax(c)) => assert_eq!(c, Construct::Node),
        other => panic!("unexpected {:?}", other),
    }
}

#[test]
fn selector_may_hold_blanks_and_colons() {
    let data = tree(".x a:hover{color:red}");
    assert_eq!(data, CSS::Object(vec![block(".x a:hover", vec![leaf("color", "red")])]));
}

#[test]
fn later_declaration_of_a_key_wins_and_keeps_the_place() {
    let data = tree(".a{k:1;j:2;k:3}");
    assert_eq!(data, CSS::Object(vec![block(".a", vec![leaf("k", "3"), leaf("j", "2")])]));
    match &data {
        CSS::Object(top) => match &top[0].1 {
            CSS::Object(inner) => {
                assert_eq!(inner.len(), 2);
                assert_eq!(inner[0].0, "k");
            },
            _ => panic!("a block is a mapping"),
        },
        _ => panic!("a document is a mapping"),
    }
}

#[test]
fn trees_are_equal_whatever_the_order_of_their_entries() {
    let one = tree(".a{k:1;j:2} .b{x:y}");
    let other = tree(".b{x:y} .a{j:2;k:1}");
    assert_eq!(one, other);
    assert_ne!(one, tree(".a{k:1;j:2} .b{x:z}"));
    assert_ne!(one, tree(".a{k:1;j:2}"));
}

#[test]
fn unread_rest_is_returned() {
    let (rest, data) = parse("  .a{k:v}  .b{").unwrap();
    assert_eq!(rest, ".b{");
    assert_eq!(data, CSS::Object(vec![block(".a", vec![leaf("k", "v")])]));
}

#[test]
fn extend_name_runs_to_the_closing_brace() {
    let data = tree(".a{ ?h-$2\n }");
    assert_eq!(data, CSS::Object(vec![block(".a", vec![marker("h-$2")])]));
}

#[test]
fn missing_selector_is_reported() {
    match parse("{a:b}") {
        Err(CssError::Syntax(c)) => assert_eq!(c, Construct::Selector),
        other => panic!("unexpected {:?}", other),
    }
    match parse("   ") {
        Err(CssError::Syntax(c)) => assert_eq!(c, Construct::Selector),
        other => panic!("unexpected {:?}", other),
    }
}

#[test]
fn malformed_body_is_reported() {
    match parse(".a{ b }") {
        Err(CssError::Syntax(c)) => assert_eq!(c, Construct::Object),
        other => panic!("unexpected {:?}", other),
    }
    match parse(".a{}") {
        Err(CssError::Syntax(c)) => assert_eq!(c, Construct::Object),
        other => panic!("unexpected {:?}", other),
    }
}

#[test]
fn unmatched_brace_is_reported() {
    match parse(".a{ b:c ") {
        Err(CssError::Syntax(c)) => assert_eq!(c, Construct::Node),
        other => panic!("unexpected {:?}", other),
    }
    match parse(".a }") {
        Err(CssError::Syntax(c)) => assert_eq!(c, Construct::Node),
        other => panic!("unexpected {:?}", other),
    }
}

#[test]
fn body_that_mixes_statements_and_blocks_is_rejected() {
    match parse(".a{ b:c; .d{e:f} }") {
        Err(CssError::Syntax(c)) => assert_eq!(c, Construct::Node),
        other => panic!("unexpected {:?}", other),
    }
}

#[test]
fn comment_inside_a_block_is_no_comment() {
    assert!(parse(".a{ // note\n }").is_err());
}

#[test]
fn text_beyond_ascii_is_read_by_characters() {
    let (rest, data) = parse(".é{ü:ß} …").unwrap();
    assert_eq!(rest, "…");
    assert_eq!(data, CSS::Object(vec![block(".é", vec![leaf("ü", "ß")])]));
}

#[test]
fn empty_text_has_no_selector() {
    match parse("") {
        Err(CssError::Syntax(c)) => assert_eq!(c, Construct::Selector),
        other => panic!("unexpected {:?}", other),
    }
}

#[test]
fn import_inside_a_block_is_rejected() {
    match parse(".a{ @import(x); }") {
        Err(CssError::Syntax(c)) => assert_eq!(c, Construct::Object),
        other => panic!("unexpected {:?}", other),
    }
}

#[test]
fn import_with_a_blank_path_declares_nothing() {
    assert_eq!(tree("@import( );\n.a{k:v}"), CSS::Object(vec![block(".a", vec![leaf("k", "v")])]));
}

#[test]
fn comment_ends_with_its_line() {
    let data = tree("// .a{k:v}\r\n.b{k:v} // .c{k:v}");
    assert_eq!(data, CSS::Object(vec![block(".b", vec![leaf("k", "v")])]));
}

#[test]
fn value_may_hold_colons_and_key_semicolons() {
    let data = tree(".a{ k : url(http://x/y) ; a;b : c }");
    assert_eq!(
        data,
        CSS::Object(vec![block(".a", vec![leaf("k", "url(http://x/y)"), leaf("a;b", "c")])])
    );
}

#[test]
fn statement_without_colon_ends_the_list_before_its_semicolon() {
    match parse(".a{ k:v; bad }") {
        Err(CssError::Syntax(c)) => assert_eq!(c, Construct::Node),
        other => panic!("unexpected {:?}", other),
    }
}

#[test]
fn nested_selector_with_colon_is_read_as_a_property() {
    match parse(".x{ a:hover{color:red} }") {
        Err(CssError::Syntax(c)) => assert_eq!(c, Construct::Node),
        other => panic!("unexpected {:?}", other),
    }
    let data = tree(".x{ .b{k:v} a:hover{color:red} }");
    assert_eq!(
        data,
        CSS::Object(vec![block(
            ".x",
            vec![block(".b", vec![leaf("k", "v")]), block("a:hover", vec![leaf("color", "red")])]
        )])
    );
}

#[test]
fn body_of_blocks_followed_by_a_statement_is_rejected() {
    match parse(".a{ .b{k:v} c:d }") {
        Err(CssError::Syntax(c)) => assert_eq!(c, Construct::Node),
        other => panic!("unexpected {:?}", other),
    }
}

#[test]
fn nodes_of_different_kinds_are_not_equal() {
    let value = CSS::Value("x".to_string());
    assert_eq!(value, CSS::Value("x".to_string()));
    assert_ne!(value, CSS::ExtendValue("x".to_string()));
    assert_ne!(value, CSS::Import("x".to_string()));
    assert_ne!(value, CSS::Comment("x".to_string()));
    assert_ne!(value, CSS::Object(vec![]));
    assert_ne!(CSS::Object(vec![leaf("k", "v")]), CSS::Object(vec![leaf("j", "v")]));
    assert!(CSS::Object(vec![leaf("k", "v")]).same_as(&CSS::Object(vec![leaf("k", "v")])));
}
