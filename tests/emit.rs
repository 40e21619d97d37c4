use automod::emit::{mod_item, ModItem};

fn item(name: &str, ident: &str, path: Option<&str>) -> ModItem {
    ModItem { name: name.to_string(), ident: ident.to_string(), path: path.map(|p| p.to_string()) }
}

#[test]
fn hyphens_become_underscores() {
    assert_eq!(mod_item("a-b-c".to_string()), item("a-b-c", "a_b_c", Some("a-b-c.rs")));
    assert_eq!(mod_item("bar-baz".to_string()), item("bar-baz", "bar_baz", Some("bar-baz.rs")));
}

#[test]
fn leading_digit_gets_underscore() {
    assert_eq!(mod_item("9lives".to_string()), item("9lives", "_9lives", Some("9lives.rs")));
    assert_eq!(mod_item("1-x".to_string()), item("1-x", "_1_x", Some("1-x.rs")));
}

#[test]
fn leading_hyphen_is_not_a_digit() {
    assert_eq!(mod_item("-9".to_string()), item("-9", "_9", Some("-9.rs")));
}

#[test]
fn plain_names_are_unchanged() {
    assert_eq!(mod_item("foo".to_string()), item("foo", "foo", None));
    assert_eq!(mod_item("_x9".to_string()), item("_x9", "_x9", None));
    assert_eq!(mod_item("a9_b".to_string()), item("a9_b", "a9_b", None));
}
