use result_query::pvrustlib::EmptyJSON;

#[test]
fn it_works() {
    let result = 2 + 2;
    assert_eq!(result, 4);
}

#[test]
fn empty_json_is_the_empty_object() {
    assert_eq!(EmptyJSON::new(), EmptyJSON {});
}
