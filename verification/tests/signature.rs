use fcss::parser::parse;
use fcss::signature::{class_to_signature, decimal_string, token_signature};
use std::collections::HashSet;

#[test]
fn test_class_to_signature() {
    let in_param = vec![
        ".h-12 .w-12 .b-1-fff .tcp".to_string(),
        ".h-12 .w-12 .b-1-fff .tcp .hw-12-21".to_string(),
    ];
    println!("{:?}", class_to_signature(in_param).unwrap());
}

#[test]
fn shapes_come_once_in_the_order_of_their_first_name() {
    let in_param = vec![
        ".h-12 .w-12 .b-1-fff .tcp".to_string(),
        ".h-12 .w-12 .b-1-fff .tcp .hw-12-21".to_string(),
    ];
    assert_eq!(
        class_to_signature(in_param).unwrap(),
        vec![".h-$1", ".w-$1", ".b-$1-$2", ".tcp", ".hw-$1-$2"]
    );
}

#[test]
fn top_level_keys_give_the_set_of_shapes() {
    let (_, data) = parse(".h-12{a:b} .w-12{a:b} .b-1-fff{a:b} .hw-12-21{a:b}").unwrap();
    let got: HashSet<String> = data.get_signature().unwrap().into_iter().collect();
    let expected: HashSet<String> =
        [".h-$1", ".w-$1", ".b-$1-$2", ".hw-$1-$2"].iter().map(|s| s.to_string()).collect();
    assert_eq!(got, expected);
}

#[test]
fn nested_keys_give_no_shape() {
    let (_, data) = parse(".x-1 .y-2{ .z-3{a:b} }\n.x-9{ c-4:d }").unwrap();
    assert_eq!(data.get_signature().unwrap(), vec![".x-$1", ".y-$1"]);
}

#[test]
fn names_are_split_at_every_blank() {
    let lines = vec!["  a-1\tb-2\r\nc  ".to_string(), "".to_string(), " ".to_string()];
    assert_eq!(class_to_signature(lines).unwrap(), vec!["a-$1", "b-$1", "c"]);
}

#[test]
fn every_segment_after_the_first_gets_its_number() {
    assert_eq!(token_signature(".b-1-fff"), ".b-$1-$2");
    assert_eq!(token_signature(".hw-12-21"), ".hw-$1-$2");
    assert_eq!(token_signature("plain"), "plain");
    assert_eq!(token_signature("-"), "-$1");
    assert_eq!(token_signature("a--b-"), "a-$1-$2-$3");
    assert_eq!(token_signature("a-1-2-3-4-5-6-7-8-9-10-11"), "a-$1-$2-$3-$4-$5-$6-$7-$8-$9-$10-$11");
}

#[test]
fn numerals_are_decimal() {
    assert_eq!(decimal_string(0), "0");
    assert_eq!(decimal_string(7), "7");
    assert_eq!(decimal_string(10), "10");
    assert_eq!(decimal_string(4096), "4096");
    assert_eq!(decimal_string(1234567890), "1234567890");
}
