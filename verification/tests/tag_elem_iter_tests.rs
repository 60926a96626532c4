//! Tests for `TagElemIter`.

use markex::tag::{Attrs, TagElem, TagElemIter};

#[test]
fn tag_elem_iter_tests_test_support_tag_elem_iter_simple() {
	// -- Setup & Fixtures
	let text = "Some text <DATA>content1</DATA> more text <DATA>content2</DATA> final.";
	let tag_name = "DATA";

	// -- Exec
	let iter = TagElemIter::new_single_tag(text, tag_name);
	let blocks: Vec<TagElem> = iter.collect();

	// -- Check
	assert_eq!(blocks.len(), 2);
	assert_eq!(
		blocks[0],
		TagElem {
			tag: "DATA".to_string(),
			attrs: None,
			content: "content1".to_string()
		}
	);
	assert_eq!(
		blocks[1],
		TagElem {
			tag: "DATA".to_string(),
			attrs: None,
			content: "content2".to_string()
		}
	);
}

#[test]
fn tag_elem_iter_tests_test_support_tag_elem_iter_with_attrs() {
	// -- Setup & Fixtures
	let text = r#"Some <DATA path="a/b.txt" flag attr=123 message='hello world'>value</DATA>"#;
	let tag_name = "DATA";

	// -- Exec
	let iter = TagElemIter::new_single_tag(text, tag_name);
	let blocks: Vec<TagElem> = iter.collect();

	// -- Check
	assert_eq!(blocks.len(), 1);

	let mut expected_attrs = Attrs::new();
	expected_attrs = expected_attrs.with("path".to_string(), "a/b.txt".to_string());
	expected_attrs = expected_attrs.with("flag".to_string(), "".to_string());
	expected_attrs = expected_attrs.with("attr".to_string(), "123".to_string());
	expected_attrs = expected_attrs.with("message".to_string(), "hello world".to_string());

	assert_eq!(
		blocks[0],
		TagElem {
			tag: "DATA".to_string(),
			attrs: Some(expected_attrs.clone()),
			content: "value".to_string()
		}
	);
}

#[test]
fn tag_elem_iter_tests_test_support_tag_elem_iter_no_tags() {
	// -- Setup & Fixtures
	let text = "Some text without tags.";
	let tag_name = "DATA";

	// -- Exec
	let iter = TagElemIter::new_single_tag(text, tag_name);
	let blocks: Vec<TagElem> = iter.collect();

	// -- Check
	assert!(blocks.is_empty());
}

#[test]
fn tag_elem_iter_tests_test_support_tag_elem_iter_multiple_tag_names() {
	// -- Setup & Fixtures
	let text = "Alpha <ONE>first</ONE> Beta <TWO attr=ok>second</TWO> Gamma";
	let tag_names = ["ONE", "TWO"];

	// -- Exec
	let iter = TagElemIter::new(text, &tag_names);
	let blocks: Vec<TagElem> = iter.collect();

	// -- Check
	assert_eq!(blocks.len(), 2);

	let mut expected_attrs = Attrs::new();
	expected_attrs = expected_attrs.with("attr".to_string(), "ok".to_string());

	assert_eq!(
		blocks[0],
		TagElem {
			tag: "ONE".to_string(),
			attrs: None,
			content: "first".to_string()
		}
	);
	assert_eq!(
		blocks[1],
		TagElem {
			tag: "TWO".to_string(),
			attrs: Some(expected_attrs),
			content: "second".to_string()
		}
	);
}

#[test]
fn test_tag_elem_iter_next_hands_out_one_by_one() {
	let text = "a <X>1</X> b <X k=v>2</X> c";
	let mut iter = TagElemIter::new_single_tag(text, "X");

	let first = iter.next();
	assert_eq!(
		first,
		Some(TagElem {
			tag: "X".to_string(),
			attrs: None,
			content: "1".to_string()
		})
	);

	let mut attrs = Attrs::new();
	attrs = attrs.with("k".to_string(), "v".to_string());
	let second = iter.next();
	assert_eq!(
		second,
		Some(TagElem {
			tag: "X".to_string(),
			attrs: Some(attrs),
			content: "2".to_string()
		})
	);

	assert_eq!(iter.next(), None);
	assert_eq!(iter.next(), None);
}
