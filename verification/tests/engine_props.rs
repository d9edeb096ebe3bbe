use placeholder::render;
use placeholder::try_render;
use placeholder::ValueMap;

#[test]
fn empty_template_with_values() {
    let mut values = ValueMap::new();
    values.insert(String::from("start"), String::from("Hello"));
    values.insert(String::from("end"), String::from("world"));

    assert!(render("", &values) == Ok(String::from("")));
}

#[test]
fn no_tokens_with_values() {
    let mut values = ValueMap::new();
    values.insert(String::from("start"), String::from("Hello"));

    assert!(render("plain text, no braces", &values) == Ok(String::from("plain text, no braces")));
}

#[test]
fn escaped_at_start() {
    let values = ValueMap::new();

    assert!(render("{{middle} w{{orld", &values) == Ok(String::from("{{middle} w{{orld")));
}

#[test]
fn escaped_beats_present_value() {
    let mut values = ValueMap::new();
    values.insert(String::from("orld"), String::from("X"));
    values.insert(String::from("middle"), String::from("Y"));

    assert!(render("{{middle} w{{orld", &values) == Ok(String::from("{{middle} w{{orld")));
}

#[test]
fn deep_braces_untouched() {
    let mut values = ValueMap::new();
    values.insert(String::from("a"), String::from("X"));

    assert!(render("x{{{a}", &values) == Ok(String::from("x{{{a}")));
}

#[test]
fn malformed_token_is_literal() {
    let values = ValueMap::new();

    assert!(render("{a b} c {} d", &values) == Ok(String::from("{a b} c {} d")));
}

#[test]
fn underscore_and_digit_names() {
    let mut values = ValueMap::new();
    values.insert(String::from("a_1"), String::from("ok"));

    assert!(render("x{a_1}y", &values) == Ok(String::from("xoky")));
}

#[test]
fn same_name_twice_interior() {
    let mut values = ValueMap::new();
    values.insert(String::from("a"), String::from("Z"));

    assert!(render("x{a} y{a}", &values) == Ok(String::from("xZ yZ")));
}

#[test]
fn same_name_start_and_interior() {
    let mut values = ValueMap::new();
    values.insert(String::from("a"), String::from("Q"));

    assert!(render("{a} and {a}", &values) == Ok(String::from("Q and Q")));
}

#[test]
fn first_missing_name_wins() {
    let mut values = ValueMap::new();
    values.insert(String::from("middle"), String::from("beautiful"));
    values.insert(String::from("end"), String::from("world"));

    assert!(render("a {gone} {middle} {also_gone}", &values) == Err(String::from("gone")));
}

#[test]
fn rerender_stable() {
    let mut values = ValueMap::new();
    values.insert(String::from("start"), String::from("Hello"));

    let once = render("{start} world", &values).unwrap();
    assert!(render(&once, &values) == Ok(String::from("Hello world")));
}

#[test]
fn value_forms_new_token() {
    let mut values = ValueMap::new();
    values.insert(String::from("a"), String::from("{b}"));
    values.insert(String::from("b"), String::from("Y"));

    assert!(render("x{a}", &values) == Ok(String::from("xY")));
}

#[test]
fn rerender_start_token_quirk() {
    let mut values = ValueMap::new();
    values.insert(String::from("a"), String::from(""));
    values.insert(String::from("b"), String::from("x"));

    let once = render("{a}{b}", &values).unwrap();
    assert!(once == String::from("{b}"));
    assert!(render(&once, &values) == Ok(String::from("x")));
}

#[test]
fn later_insert_overrides() {
    let mut values = ValueMap::new();
    values.insert(String::from("a"), String::from("old"));
    values.insert(String::from("a"), String::from("new"));

    assert!(render("x{a}", &values) == Ok(String::from("xnew")));
}

#[test]
fn try_render_plain_values() {
    let mut values = ValueMap::new();
    values.insert(String::from("a"), String::from("Z"));

    assert!(try_render("x{a}", &values) == Some(Ok(String::from("xZ"))));
    assert!(try_render("x{b}", &values) == Some(Err(String::from("b"))));
}

#[test]
fn try_render_declines_brace_values() {
    let mut values = ValueMap::new();
    values.insert(String::from("a"), String::from("{a}"));

    assert!(try_render("x{a}", &values) == None);
}

#[test]
fn lookup_misses_other_keys() {
    let mut values = ValueMap::new();
    values.insert(String::from("aa"), String::from("1"));
    values.insert(String::from("ab"), String::from("2"));

    assert!(render("x{ac}", &values) == Err(String::from("ac")));
}
