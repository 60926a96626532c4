//! Tests for the attribute parser and for the attribute mappings.

use markex::tag::{parse_attrs_ref, Attrs, AttrsRef};

fn parsed(raw: &str) -> AttrsRef<'_> {
	match parse_attrs_ref(Some(raw)) {
		Some(attrs) => attrs,
		None => panic!("no attribute in {raw:?}"),
	}
}

#[test]
fn test_attrs_absent_input() {
	assert_eq!(parse_attrs_ref(None), None);
}

#[test]
fn test_attrs_empty_and_blank_input() {
	assert_eq!(parse_attrs_ref(Some("")), None);
	assert_eq!(parse_attrs_ref(Some("   \t\r\n ")), None);
}

#[test]
fn test_attrs_all_forms() {
	let attrs = parsed(r#"path="a/b.txt" flag attr=123 message='hello world'"#);
	assert_eq!(attrs.len(), 4);
	assert_eq!(attrs.get("path"), Some("a/b.txt"));
	assert_eq!(attrs.get("flag"), Some(""));
	assert_eq!(attrs.get("attr"), Some("123"));
	assert_eq!(attrs.get("message"), Some("hello world"));
	assert_eq!(attrs.get("other"), None);
}

#[test]
fn test_attrs_flag_alone() {
	let attrs = parsed("flag");
	assert_eq!(attrs.len(), 1);
	assert_eq!(attrs.get("flag"), Some(""));
}

#[test]
fn test_attrs_untrimmed_input() {
	let attrs = parsed("  \n key=val \t");
	assert_eq!(attrs.len(), 1);
	assert_eq!(attrs.get("key"), Some("val"));
}

#[test]
fn test_attrs_spaces_around_equals() {
	let attrs = parsed("a = 1 b\t=\n'two words' c =3");
	assert_eq!(attrs.len(), 3);
	assert_eq!(attrs.get("a"), Some("1"));
	assert_eq!(attrs.get("b"), Some("two words"));
	assert_eq!(attrs.get("c"), Some("3"));
}

#[test]
fn test_attrs_last_occurrence_wins() {
	let attrs = parsed("k=1 other=x k=2 k");
	assert_eq!(attrs.len(), 2);
	assert_eq!(attrs.get("k"), Some(""));
	assert_eq!(attrs.get("other"), Some("x"));

	let attrs = parsed("k=1 k='2'");
	assert_eq!(attrs.len(), 1);
	assert_eq!(attrs.get("k"), Some("2"));
}

#[test]
fn test_attrs_unclosed_quote_takes_the_rest() {
	let attrs = parsed(r#"a=1 b="never closed c=3"#);
	assert_eq!(attrs.len(), 2);
	assert_eq!(attrs.get("a"), Some("1"));
	assert_eq!(attrs.get("b"), Some("never closed c=3"));
	assert_eq!(attrs.get("c"), None);
}

#[test]
fn test_attrs_unclosed_quote_after_trimming() {
	// The text is trimmed before it is read, so the spaces at the end are no
	// part of the value.
	let attrs = parsed("a='open   ");
	assert_eq!(attrs.get("a"), Some("open"));
}

#[test]
fn test_attrs_quote_of_the_other_kind_inside() {
	let attrs = parsed(r#"a="it's" b='say "hi"'"#);
	assert_eq!(attrs.get("a"), Some("it's"));
	assert_eq!(attrs.get("b"), Some(r#"say "hi""#));
}

#[test]
fn test_attrs_empty_quoted_value() {
	let attrs = parsed(r#"a="" b=''"#);
	assert_eq!(attrs.len(), 2);
	assert_eq!(attrs.get("a"), Some(""));
	assert_eq!(attrs.get("b"), Some(""));
}

#[test]
fn test_attrs_equals_without_value() {
	let attrs = parsed("a=");
	assert_eq!(attrs.len(), 1);
	assert_eq!(attrs.get("a"), Some(""));
}

#[test]
fn test_attrs_empty_key_is_dropped() {
	// `=v` has an empty key: its value is read and nothing is kept.
	assert_eq!(parse_attrs_ref(Some("=v")), None);

	let attrs = parsed("=v k=w");
	assert_eq!(attrs.len(), 1);
	assert_eq!(attrs.get("k"), Some("w"));
	assert_eq!(attrs.get(""), None);
}

#[test]
fn test_attrs_value_directly_after_closing_quote() {
	// Reading goes on right behind the closing quote.
	let attrs = parsed(r#"a="1"b=2"#);
	assert_eq!(attrs.len(), 2);
	assert_eq!(attrs.get("a"), Some("1"));
	assert_eq!(attrs.get("b"), Some("2"));
}

#[test]
fn test_attrs_unquoted_value_may_hold_equals_and_quotes() {
	let attrs = parsed(r#"a=b=c d=x"y"#);
	assert_eq!(attrs.get("a"), Some("b=c"));
	assert_eq!(attrs.get("d"), Some(r#"x"y"#));
}

#[test]
fn test_attrs_text_beyond_ascii() {
	let attrs = parsed("clé='été à Noël' 名前=値");
	assert_eq!(attrs.len(), 2);
	assert_eq!(attrs.get("clé"), Some("été à Noël"));
	assert_eq!(attrs.get("名前"), Some("値"));
}

#[test]
fn test_attrs_ref_with_and_get() {
	let mut attrs = AttrsRef::new();
	assert!(attrs.is_empty());
	assert_eq!(attrs.len(), 0);
	attrs = attrs.with("a", "1");
	attrs = attrs.with("b", "2");
	attrs = attrs.with("a", "3");
	assert!(!attrs.is_empty());
	assert_eq!(attrs.len(), 2);
	assert_eq!(attrs.get("a"), Some("3"));
	assert_eq!(attrs.get("b"), Some("2"));
	assert_eq!(attrs.get("c"), None);
}

#[test]
fn test_attrs_owned_with_and_get() {
	let mut attrs = Attrs::new();
	assert!(attrs.is_empty());
	attrs = attrs.with("a".to_string(), "1".to_string());
	attrs = attrs.with("b".to_string(), "2".to_string());
	attrs = attrs.with("a".to_string(), "3".to_string());
	assert!(!attrs.is_empty());
	assert_eq!(attrs.len(), 2);
	assert_eq!(attrs.get("a"), Some("3"));
	assert_eq!(attrs.get("b"), Some("2"));
	assert_eq!(attrs.get("c"), None);
}

#[test]
fn test_attrs_from_pairs() {
	let attrs = AttrsRef::from_pairs(vec![("a", "1"), ("b", "2"), ("a", "3")]);
	assert_eq!(attrs.len(), 2);
	assert_eq!(attrs.get("a"), Some("3"));
	assert_eq!(attrs.get("b"), Some("2"));
	assert_eq!(attrs, AttrsRef::new().with("b", "2").with("a", "3"));
	assert_eq!(AttrsRef::from_pairs(vec![]), AttrsRef::new());

	let owned = Attrs::from_pairs(vec![
		("a".to_string(), "1".to_string()),
		("b".to_string(), "2".to_string()),
		("a".to_string(), "3".to_string()),
	]);
	assert_eq!(owned.len(), 2);
	assert_eq!(owned.get("a"), Some("3"));
	assert_eq!(owned.get("b"), Some("2"));
	assert_eq!(owned, Attrs::from_ref(&attrs));
	assert_eq!(Attrs::from_pairs(vec![]), Attrs::new());
}

#[test]
fn test_attrs_equality_is_that_of_mappings() {
	let one = AttrsRef::from_pairs(vec![("a", "1"), ("b", "2")]);
	let other_order = AttrsRef::from_pairs(vec![("b", "2"), ("a", "1")]);
	assert_eq!(one, other_order);
	assert_eq!(one.clone(), one);
	assert_ne!(one, AttrsRef::from_pairs(vec![("a", "1")]));
	assert_ne!(one, AttrsRef::from_pairs(vec![("a", "1"), ("b", "3")]));
	assert_ne!(one, AttrsRef::from_pairs(vec![("a", "1"), ("c", "2")]));
	assert_ne!(one, AttrsRef::from_pairs(vec![("a", "1"), ("b", "2"), ("c", "3")]));

	let owned = Attrs::from_ref(&one);
	assert_eq!(owned, Attrs::from_ref(&other_order));
	assert_eq!(owned.clone(), owned);
	assert_ne!(owned, Attrs::new());
	assert_ne!(owned, Attrs::new().with("a".to_string(), "1".to_string()));
	assert_ne!(owned, Attrs::from_ref(&AttrsRef::from_pairs(vec![("a", "2"), ("b", "2")])));
}

#[test]
fn test_attrs_owned_from_ref() {
	let borrowed = parsed("x=1 y='2 3' z");
	let owned = Attrs::from_ref(&borrowed);
	assert_eq!(owned.len(), 3);
	assert_eq!(owned.get("x"), Some("1"));
	assert_eq!(owned.get("y"), Some("2 3"));
	assert_eq!(owned.get("z"), Some(""));

	let mut expected = Attrs::new();
	expected = expected.with("x".to_string(), "1".to_string());
	expected = expected.with("y".to_string(), "2 3".to_string());
	expected = expected.with("z".to_string(), "".to_string());
	assert_eq!(owned, expected);
}
