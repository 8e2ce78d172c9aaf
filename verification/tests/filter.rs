use result_query::filter::{cache_key, eq_condition, filter_document, in_condition, rename_ident, Filter};
use result_query::parser::{generate_mongodb_query, QueryParser};
use result_query::query::{lock_id, process_query, Operation};

fn cond(field: &str, values: &[&str]) -> Filter {
    Filter::In { field: field.to_string(), values: values.iter().map(|v| v.to_string()).collect() }
}

fn and(l: Filter, r: Filter) -> Filter {
    Filter::And(Box::new(l), Box::new(r))
}

fn or(l: Filter, r: Filter) -> Filter {
    Filter::Or(Box::new(l), Box::new(r))
}

#[test]
fn test_parser_1() {
    let q = "(q11011=1101102 AND q11021=1102101) OR (chars:[\"博丽灵梦\",\"东风谷早苗\"] AND chars_first=\"东风谷早苗\")";
    let ret = generate_mongodb_query(q).unwrap();
    println!("{:#?}", ret);
    let expected = or(
        and(cond("q11011.opt", &["1101102"]), cond("q11021.opt", &["1102101"])),
        and(cond("chars.name", &["东风谷早苗", "博丽灵梦"]), cond("chars_first", &["东风谷早苗"])),
    );
    assert_eq!(ret, expected);
}

#[test]
fn identifiers_are_renamed() {
    assert_eq!(rename_ident("q11011"), "q11011.opt");
    assert_eq!(rename_ident("q1"), "q1.opt");
    assert_eq!(rename_ident("chars"), "chars.name");
    assert_eq!(rename_ident("musics"), "musics.name");
    assert_eq!(rename_ident("chars_first"), "chars_first");
    assert_eq!(rename_ident("q"), "q");
    assert_eq!(rename_ident("quality"), "quality");
    assert_eq!(rename_ident("q12x"), "q12x");
    assert_eq!(rename_ident("vote_year"), "vote_year");
}

#[test]
fn equality_is_containment_in_a_list_of_one() {
    assert_eq!(eq_condition("x", "v".to_string()), in_condition("x", &vec!["v".to_string()]));
    assert_eq!(QueryParser::parse("x=\"v\""), QueryParser::parse("x:[\"v\"]"));
    assert_eq!(QueryParser::parse("x=7").unwrap(), cond("x", &["7"]));
}

#[test]
fn value_lists_are_sorted() {
    let f = QueryParser::parse("musics : [ \"b\", \"a\", 10, \"ab\", 9, \"\" ]").unwrap();
    assert_eq!(f, cond("musics.name", &["", "10", "9", "a", "ab", "b"]));
    let g = QueryParser::parse("musics:[9,\"\",\"ab\",\"a\",\"b\",10]").unwrap();
    assert_eq!(cache_key(&f), cache_key(&g));
}

#[test]
fn operators_group_to_the_right() {
    let f = QueryParser::parse("a=1 AND b=2 AND c=3 OR d=4 OR e=5 AND f=6").unwrap();
    let expected = or(
        and(cond("a", &["1"]), and(cond("b", &["2"]), cond("c", &["3"]))),
        or(cond("d", &["4"]), and(cond("e", &["5"]), cond("f", &["6"]))),
    );
    assert_eq!(f, expected);
    let g = QueryParser::parse("(a=1 OR b=2) AND ((c=-3))").unwrap();
    assert_eq!(g, and(or(cond("a", &["1"]), cond("b", &["2"])), cond("c", &["-3"])));
}

#[test]
fn malformed_queries_are_refused() {
    for q in [
        "", " ", "a", "a=", "=1", "a=1 AND", "a=1 OR", "(a=1", "a=1)", "a:[]", "a:[1,]", "a:[1", "a:1", "a=\"x", "a=b", "a=1 b=2",
        "a=1 and b=2", "AND=1", "a=1 # b", "1=1", "a=-", "a==1",
    ] {
        let r = generate_mongodb_query(q);
        assert!(r.is_err(), "{:?} was accepted", q);
        assert!(r.unwrap_err().is_kind("MALFORMED_QUERY"));
    }
}

#[test]
fn cache_key_is_the_canonical_text() {
    let f = QueryParser::parse("chars:[\"b\",\"a\"] AND (x=1 OR y=\"z\")").unwrap();
    let list = |field: &str, values: &str| format!("Document({{\"{}\": Document({{\"$in\": Array([{}])}})}})", field, values);
    let node = |op: &str, l: &str, r: &str| format!("Document({{\"{}\": Array([{}, {}])}})", op, l, r);
    let expected = node(
        "$and",
        &list("chars.name", "String(\"a\"), String(\"b\")"),
        &node("$or", &list("x", "String(\"1\")"), &list("y", "String(\"z\")")),
    );
    assert_eq!(cache_key(&f), expected);
    assert_eq!(format!("{:?}", filter_document(&f)), expected);
    let mut test = bson::Document::new();
    test.insert("$in", vec!["a".to_string(), "b".to_string()]);
    let mut chars = bson::Document::new();
    chars.insert("chars.name", test);
    assert_eq!(filter_document(&QueryParser::parse("chars:[\"b\",\"a\"]").unwrap()), chars);
}

#[test]
fn process_query_gives_filter_and_key() {
    let (filter, key) = process_query(None).unwrap();
    assert!(filter.is_none());
    assert_eq!(key, "none");
    let (filter, key) = process_query(Some("q1=2".to_string())).unwrap();
    assert_eq!(filter, Some(cond("q1.opt", &["2"])));
    assert_eq!(key, "Document({\"q1.opt\": Document({\"$in\": Array([String(\"2\")])})})");
    assert!(process_query(Some("q1=".to_string())).unwrap_err().is_kind("MALFORMED_QUERY"));
}

#[test]
fn lock_is_named_after_operation_and_key() {
    assert_eq!(lock_id(Operation::CharsRanking, "none"), "lock-chars_ranking-none");
    assert_eq!(lock_id(Operation::MusicsCovote, "k"), "lock-musics_covote-k");
    assert_eq!(lock_id(Operation::PaperResult, ""), "lock-paper_result-");
}

#[test]
fn list_order_inside_a_whole_query_keeps_filter_and_key() {
    let p = "chars:[\"b\",\"a\",\"c\"] AND (q1:[3,1,2] OR musics=\"m\")".to_string();
    let q = "  chars : [\"c\", \"b\", \"a\"]  AND ( q1 : [2, 3, 1] OR musics = \"m\" ) ".to_string();
    let (f, key_p) = process_query(Some(p)).unwrap();
    let (g, key_q) = process_query(Some(q)).unwrap();
    assert_eq!(f, g);
    assert_eq!(key_p, key_q);
    assert_eq!(
        f,
        Some(and(cond("chars.name", &["a", "b", "c"]), or(cond("q1.opt", &["1", "2", "3"]), cond("musics.name", &["m"]))))
    );
    let (h, key_h) = process_query(Some("chars:[\"b\",\"a\",\"c\"] AND (q1:[3,1,2] OR musics=\"n\")".to_string())).unwrap();
    assert_ne!(f, h);
    assert_ne!(key_p, key_h);
}

#[test]
fn condition_without_values_is_an_empty_list_of_texts() {
    let f = cond("x", &[]);
    let mut test = bson::Document::new();
    test.insert("$in", Vec::<String>::new());
    let mut outer = bson::Document::new();
    outer.insert("x", test);
    assert_eq!(filter_document(&f), outer);
    assert_eq!(cache_key(&f), "Document({\"x\": Document({\"$in\": Array([])})})");
}
