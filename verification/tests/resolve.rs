use fcss::error::CssError;
use fcss::grammar::Construct;
use fcss::parser::parse;
use fcss::tree::CSS;

fn file(path: &str, text: &str) -> (String, String) {
    (path.to_string(), text.to_string())
}

#[test]
fn test_css_parse() {
    let files = vec![
        file(
            "/home/jiuker/rustworkspace/fcss/res/test/reg/test.reg",
            ".t1{ ?a-$1; ?b-$1 }\n.t2{ ?a-$1; ?b-$1 }\n.t3{ ?a-$1; ?b-$1 }\n.t4{ ?a-$1; ?b-$1 }",
        ),
        file(
            "/home/jiuker/rustworkspace/fcss/res/test/reg/loop.reg",
            "@import( /home/jiuker/rustworkspace/fcss/res/test/reg/loop.reg );",
        ),
    ];
    let (_, mut data) = parse(
        "
        // @import(./test1);
        @import( /home/jiuker/rustworkspace/fcss/res/test/reg/test.reg );
        .x a{
            .x{
                .x{
                    .y{
                      width:1px;
                      heigt:1px;
                      ?h-$2
                    }
                    .x{
                      width:1px;
                            heigt:1px;
                    }
                }
            }
        }
        .a{
                            width:1px;
                            heigt:1px;

        }
 .b{
                            width:1px;
                            heigt:1px

        }
 .c{
                            heigt:1px;

        }
        .d1{
            .a1{
                ?w-$1;
                width:1px;
                 ?h-$2
            }
            .b1{
                ?w-$1;
                 ?h-$2
            }
            .c1{
                 .a1{
                    ?w-$1;
                     ?h-$2
                }
            }
        }
        .e2{
            .a2{
                ?w-$1;
                 ?h-$2
            }
            .b2-(1)-(2){
                ?w-$1;
                 ?h-$2
            }
        }
    ",
    )
    .ok()
    .unwrap();
    data.extend_import(&files).unwrap();
    let c = data
        .to_string()
        .unwrap()
        .into_bytes()
        .into_iter()
        .filter(|c| *c == '?' as u8)
        .count();
    assert_eq!(c, 19);
    let (_, mut data) = parse("@import( /home/jiuker/rustworkspace/fcss/res/test/reg/loop.reg );")
        .ok()
        .unwrap();
    if let Err(e) = data.extend_import(&files) {
        println!("{:?}", e);
    } else {
        panic!("shouldn't")
    }
    println!("{:?}", data.get_signature());
}

#[test]
fn import_of_itself_is_a_cycle() {
    let files = vec![file("A", "@import(A);")];
    let (_, mut data) = parse("@import(A);").unwrap();
    match data.extend_import(&files) {
        Err(CssError::ImportCycle(p)) => assert_eq!(p, "A"),
        other => panic!("unexpected {:?}", other),
    }
    assert!(data.have_import());
}

#[test]
fn import_of_a_path_that_an_earlier_round_loaded_is_rejected() {
    let files = vec![file("A", "@import(B);"), file("B", ".b{k:v}")];
    let (_, mut data) = parse("@import(A);\n@import(B);").unwrap();
    match data.extend_import(&files) {
        Err(CssError::ImportCycle(p)) => assert_eq!(p, "B"),
        other => panic!("unexpected {:?}", other),
    }
    let (_, after_first_round) = parse("@import(B); .b{k:v}").unwrap();
    assert_eq!(data, after_first_round);
}

#[test]
fn cycle_of_three_is_rejected_at_the_path_that_repeats() {
    let chain = vec![file("A", "@import(B);"), file("B", "@import(C);"), file("C", "@import(B);")];
    let (_, mut data) = parse("@import(A);").unwrap();
    match data.extend_import(&chain) {
        Err(CssError::ImportCycle(p)) => assert_eq!(p, "B"),
        other => panic!("unexpected {:?}", other),
    }
}

#[test]
fn two_directives_for_one_path_in_one_text_are_one_entry() {
    let files = vec![file("B", ".b{k:v}")];
    let (_, mut data) = parse("@import(B);\n@import( B);\n.a{x:y}").unwrap();
    match &data {
        CSS::Object(entries) => assert_eq!(entries.len(), 2),
        _ => panic!("a document is a mapping"),
    }
    data.extend_import(&files).unwrap();
    assert!(!data.have_import());
    let (_, expected) = parse(".b{k:v} .a{x:y}").unwrap();
    assert_eq!(data, expected);
}

#[test]
fn two_texts_of_one_round_that_import_one_path_share_it() {
    let diamond = vec![file("A", "@import(B);"), file("C", "@import(B);"), file("B", ".b{k:v}")];
    let (_, mut data) = parse("@import(A);\n@import(C);").unwrap();
    data.extend_import(&diamond).unwrap();
    let (_, expected) = parse(".b{k:v}").unwrap();
    assert_eq!(data, expected);
}

#[test]
fn same_path_in_two_rounds_is_rejected() {
    let files = vec![file("A", "@import(B);\n.a{k:v}"), file("B", "@import(A);")];
    let (_, mut data) = parse("@import(A);").unwrap();
    match data.extend_import(&files) {
        Err(CssError::ImportCycle(p)) => assert_eq!(p, "A"),
        other => panic!("unexpected {:?}", other),
    }
}

#[test]
fn unreadable_import_is_reported_with_its_path() {
    let files = vec![file("A", ".a{k:v}")];
    let (_, mut data) = parse("@import(missing.reg);").unwrap();
    match data.extend_import(&files) {
        Err(CssError::Io(p)) => assert_eq!(p, "missing.reg"),
        other => panic!("unexpected {:?}", other),
    }
}

#[test]
fn imported_text_that_does_not_parse_is_reported() {
    let files = vec![file("A", "{")];
    let (_, mut data) = parse("@import(A);").unwrap();
    match data.extend_import(&files) {
        Err(CssError::Syntax(_)) => {},
        other => panic!("unexpected {:?}", other),
    }
}

#[test]
fn imports_are_spliced_in_round_by_round() {
    let files = vec![file("A", "@import(B);\n.a{k:v}"), file("B", ".b{ ?x; y:z }")];
    let (_, mut data) = parse("@import(A);\n.c{p:q}").unwrap();
    data.extend_import(&files).unwrap();
    assert!(!data.have_import());
    let (_, expected) = parse(".b{ ?x; y:z } .a{k:v} .c{p:q}").unwrap();
    assert_eq!(data, expected);
    assert_eq!(data.to_string().unwrap(), ".b{\n?x;\ny:z;\n}\n.a{\nk:v;\n}\n.c{\np:q;\n}\n");
}

#[test]
fn one_round_gives_the_imported_text_before_the_rest() {
    let files = vec![file("A", ".a{k:v}"), file("B", ".b{k:v}")];
    let (_, data) = parse(".c{p:q}\n@import(A);\n@import(B);").unwrap();
    let mut loaded = Vec::new();
    let text = data.get_import_css_str(&files, &mut loaded).unwrap();
    assert_eq!(text, "      .a{k:v}\n  .b{k:v}\n.c{\np:q;\n}\n");
    assert_eq!(loaded, vec!["A".to_string(), "B".to_string()]);
}

#[test]
fn resolved_tree_is_left_as_it_is() {
    let (_, mut data) = parse(".a{k:v} .b{ ?x }").unwrap();
    let (_, before) = parse(".a{k:v} .b{ ?x }").unwrap();
    assert!(!data.have_import());
    data.extend_import(&Vec::new()).unwrap();
    assert_eq!(data, before);
    assert_eq!(data.to_string().unwrap(), before.to_string().unwrap());
}

#[test]
fn failures_read_with_their_path_or_construct() {
    assert_eq!(CssError::ImportCycle("a.reg".to_string()).message(), "a.reg loop import !");
    assert_eq!(CssError::Io("a.reg".to_string()).message(), "cannot read a.reg");
    assert_eq!(CssError::Syntax(Construct::Selector).message(), "expected selector");
    assert_eq!(CssError::Syntax(Construct::Object).message(), "expected object");
    assert_eq!(CssError::Syntax(Construct::Node).message(), "expected node");
    assert_eq!(Construct::Node.label(), "node");
}

#[test]
fn first_file_with_a_path_is_the_one_that_is_read() {
    let files = vec![file("A", ".a{k:1}"), file("A", ".a{k:2}")];
    let (_, mut data) = parse("@import(A);").unwrap();
    data.extend_import(&files).unwrap();
    let (_, expected) = parse(".a{k:1}").unwrap();
    assert_eq!(data, expected);
}
