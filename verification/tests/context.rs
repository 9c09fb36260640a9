use json_ns::{Context, Object, Value};

fn string(text: &str) -> Value {
    Value::String(text.to_string())
}

fn entries(pairs: Vec<(&str, Value)>) -> Object {
    let mut object = Object::new();
    for (key, value) in pairs {
        object.insert(key.to_string(), value);
    }
    object
}

fn object(pairs: Vec<(&str, Value)>) -> Value {
    Value::Object(entries(pairs))
}

fn is_empty(context: &Context) -> bool {
    context.ns.is_none()
        && context.lang.is_empty()
        && context.prefixes.len() == 0
        && context.aliases.len() == 0
        && context.container.len() == 0
}

fn full_context() -> Context {
    Context::from_value(&object(vec![
        ("@vocab", string("http://example.com/ns#")),
        ("@language", string("en")),
        ("foo", string("http://example.com/foo#")),
        ("name", object(vec![("@id", string("foo:name")), ("@container", string("@language"))])),
    ]))
}

#[test]
fn a_new_context_is_empty() {
    assert!(is_empty(&Context::new()));
    assert!(is_empty(&Context::default()));
}

#[test]
fn vocab_sets_the_default_namespace() {
    let context = Context::from_value(&object(vec![("@vocab", string("http://example.com/ns#"))]));
    assert_eq!(context.ns, Some("http://example.com/ns#".to_string()));
    assert_eq!(context.expand_name("hello"), Some("http://example.com/ns#hello".to_string()));
}

#[test]
fn vocab_must_be_an_absolute_iri() {
    let mut context = Context::new();
    context.merge_value(&object(vec![("@vocab", string("relative"))]));
    assert_eq!(context.ns, None);
    context.merge_value(&object(vec![("@vocab", string("http://a/"))]));
    context.merge_value(&object(vec![("@vocab", string("@keyword:x"))]));
    context.merge_value(&object(vec![("@vocab", Value::Bool(true))]));
    context.merge_value(&object(vec![("@vocab", Value::Array(vec![]))]));
    assert_eq!(context.ns, Some("http://a/".to_string()));
    context.merge_value(&object(vec![("@vocab", Value::Null)]));
    assert_eq!(context.ns, None);
}

#[test]
fn language_sets_and_clears_the_default_language() {
    let mut context = Context::new();
    context.merge_value(&object(vec![("@language", string("en"))]));
    assert_eq!(context.lang, "en");
    context.merge_value(&object(vec![("@language", Value::Bool(false))]));
    assert_eq!(context.lang, "en");
    context.merge_value(&object(vec![("@language", string("not checked at all"))]));
    assert_eq!(context.lang, "not checked at all");
    context.merge_value(&object(vec![("@language", Value::Null)]));
    assert_eq!(context.lang, "");
}

#[test]
fn other_keywords_are_ignored() {
    let mut context = Context::new();
    context.merge_value(&object(vec![
        ("@base", string("http://example.com/")),
        ("@version", string("1.1")),
        ("@id", string("http://example.com/")),
        ("@context", object(vec![("@vocab", string("http://example.com/"))])),
    ]));
    assert!(is_empty(&context));
}

#[test]
fn a_string_defines_a_prefix() {
    let mut context = Context::new();
    context.merge_value(&object(vec![
        ("foo", string("http://example.com/foo#")),
        ("", string("http://example.com/empty#")),
        ("a:b", string("http://example.com/colon#")),
        ("bad", string("no-colon")),
        ("worse", string("@key:word")),
    ]));
    assert_eq!(context.prefixes.len(), 1);
    assert_eq!(context.prefixes.get("foo"), Some(&"http://example.com/foo#".to_string()));
    assert_eq!(context.aliases.len(), 0);
    assert_eq!(context.container.len(), 0);
}

#[test]
fn an_object_defines_alias_and_container() {
    let mut context = Context::new();
    context.merge_value(&object(vec![
        ("both", object(vec![("@id", string("foo:both")), ("@container", string("@language"))])),
        ("alias", object(vec![("@id", string("plain"))])),
        ("mapped", object(vec![("@container", string("@list"))])),
        ("keyword", object(vec![("@id", string("@type"))])),
        ("wrong", object(vec![("@id", Value::Bool(true)), ("@container", Value::Null)])),
        ("empty", object(vec![])),
    ]));
    assert_eq!(context.aliases.len(), 2);
    assert_eq!(context.aliases.get("both"), Some(&"foo:both".to_string()));
    assert_eq!(context.aliases.get("alias"), Some(&"plain".to_string()));
    assert_eq!(context.container.len(), 2);
    assert_eq!(context.container.get("both"), Some(&"@language".to_string()));
    assert_eq!(context.container.get("mapped"), Some(&"@list".to_string()));
    assert_eq!(context.prefixes.len(), 0);
}

#[test]
fn null_under_a_name_removes_what_was_defined() {
    let mut context = full_context();
    context.merge_value(&object(vec![("extra", string("http://example.com/extra#"))]));
    context.merge_value(&object(vec![("name", Value::Null), ("foo", Value::Null), ("unknown", Value::Null)]));
    assert_eq!(context.prefixes.len(), 1);
    assert_eq!(context.prefixes.get("extra"), Some(&"http://example.com/extra#".to_string()));
    assert_eq!(context.aliases.len(), 0);
    assert_eq!(context.container.len(), 0);
    assert_eq!(context.ns, Some("http://example.com/ns#".to_string()));
    assert_eq!(context.lang, "en");
}

#[test]
fn other_values_under_a_name_are_ignored() {
    let mut context = Context::new();
    context.merge_value(&object(vec![
        ("a", Value::Bool(true)),
        ("b", Value::Number(serde_json::Number::from(1))),
        ("c", Value::Array(vec![string("http://example.com/")])),
    ]));
    assert!(is_empty(&context));
}

#[test]
fn merging_null_resets_the_context() {
    let mut context = full_context();
    assert!(!is_empty(&context));
    context.merge_value(&Value::Null);
    assert!(is_empty(&context));
}

#[test]
fn an_array_is_merged_item_by_item() {
    let mut context = Context::new();
    context.merge_value(&Value::Array(vec![
        object(vec![("a", string("http://a/")), ("@language", string("en"))]),
        string("http://example.com/remote-context"),
        Value::Null,
        object(vec![("b", string("http://b/"))]),
        Value::Array(vec![object(vec![("nested", string("http://nested/"))])]),
        object(vec![("c", string("http://c/")), ("b", string("http://b2/"))]),
    ]));
    assert_eq!(context.prefixes.len(), 2);
    assert_eq!(context.prefixes.get("b"), Some(&"http://b2/".to_string()));
    assert_eq!(context.prefixes.get("c"), Some(&"http://c/".to_string()));
    assert_eq!(context.lang, "");
}

#[test]
fn an_array_that_ends_in_null_leaves_nothing() {
    let mut context = full_context();
    context.merge_value(&Value::Array(vec![object(vec![("a", string("http://a/"))]), Value::Null]));
    assert!(is_empty(&context));
}

#[test]
fn scalars_are_ignored_as_declarations() {
    let mut context = full_context();
    context.merge_value(&string("http://example.com/remote-context"));
    context.merge_value(&Value::Bool(true));
    context.merge_value(&Value::Array(vec![]));
    assert_eq!(context.prefixes.len(), 1);
    assert_eq!(context.aliases.len(), 1);
    assert_eq!(context.lang, "en");
}

#[test]
fn later_entries_see_earlier_ones_replaced() {
    let mut context = Context::new();
    context.merge_object(&entries(vec![("a", string("http://one/"))]));
    context.merge_object(&entries(vec![("a", string("http://two/"))]));
    assert_eq!(context.prefixes.get("a"), Some(&"http://two/".to_string()));
    assert_eq!(context.prefixes.len(), 1);
}

#[test]
fn from_object_reads_into_the_empty_context() {
    let context = Context::from_object(&entries(vec![("a", string("http://a/"))]));
    assert_eq!(context.prefixes.get("a"), Some(&"http://a/".to_string()));
    assert_eq!(context.ns, None);
}

#[test]
fn merge_entry_reads_one_entry() {
    let mut context = Context::new();
    context.merge_entry("a", &string("http://a/"));
    context.merge_entry("@language", &string("nl"));
    assert_eq!(context.prefixes.get("a"), Some(&"http://a/".to_string()));
    assert_eq!(context.lang, "nl");
}

#[test]
fn keywords_never_expand() {
    let context = full_context();
    assert_eq!(context.expand_name("@type"), None);
    assert_eq!(context.expand_name("@"), None);
    assert_eq!(context.expand_name("@foo:bar"), None);
    assert_eq!(Context::new().expand_name("@id"), None);
}

#[test]
fn curies_expand_by_their_prefix() {
    let context = full_context();
    assert_eq!(context.expand_name("foo:hello"), Some("http://example.com/foo#hello".to_string()));
    assert_eq!(context.expand_name("foo:"), Some("http://example.com/foo#".to_string()));
    assert_eq!(context.expand_name("foo:a:b"), Some("http://example.com/foo#a:b".to_string()));
}

#[test]
fn names_with_an_unknown_prefix_stay_as_they_are() {
    let context = full_context();
    assert_eq!(context.expand_name("http://example.org/x"), Some("http://example.org/x".to_string()));
    assert_eq!(context.expand_name("bar:hello"), Some("bar:hello".to_string()));
    assert_eq!(context.expand_name(":x"), Some(":x".to_string()));
    assert_eq!(Context::new().expand_name("urn:x"), Some("urn:x".to_string()));
}

#[test]
fn terms_need_a_default_namespace() {
    assert_eq!(full_context().expand_name("hello"), Some("http://example.com/ns#hello".to_string()));
    assert_eq!(full_context().expand_name(""), Some("http://example.com/ns#".to_string()));
    assert_eq!(Context::new().expand_name("hello"), None);
    assert_eq!(Context::new().expand_name(""), None);
}

#[test]
fn expand_name_does_not_look_at_aliases() {
    let context = full_context();
    assert_eq!(context.expand_name("name"), Some("http://example.com/ns#name".to_string()));
}

#[test]
fn clone_keeps_every_rule() {
    let context = full_context();
    let copy = context.clone();
    assert_eq!(copy.ns, context.ns);
    assert_eq!(copy.lang, context.lang);
    assert_eq!(copy.prefixes.get("foo"), Some(&"http://example.com/foo#".to_string()));
    assert_eq!(copy.aliases.get("name"), Some(&"foo:name".to_string()));
    assert_eq!(copy.container.get("name"), Some(&"@language".to_string()));
}
