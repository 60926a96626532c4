//! Tests for `TagElemRefIterator`.

use markex::tag::{parse_attrs_ref, AttrsRef, PartRef, TagElemRef, TagElemRefIterator};

// -- Helper to extract TagElemRef from PartRef

fn extract_tag_elem_refs<'a>(parts: Vec<PartRef<'a>>) -> Vec<TagElemRef<'a>> {
	parts
		.into_iter()
		.filter_map(|p| match p {
			PartRef::TagElemRef(tag) => Some(tag),
			PartRef::Text(_) => None,
		})
		.collect()
}

#[test]
fn test_support_tag_content_iter_simple() {
	// -- Setup & Fixtures
	let text = "Some text <DATA>content</DATA> more text.";
	let tag_name = "DATA";

	// -- Exec
	let parts: Vec<PartRef> = TagElemRefIterator::new(text, &[tag_name], true).collect();
	let tags = extract_tag_elem_refs(parts);

	// -- Check
	assert_eq!(tags.len(), 1);

	assert_eq!(
		tags[0],
		TagElemRef {
			tag_name: "DATA",
			attrs_raw: None,
			content: "content",
			start_idx: 10,
			end_idx: 29,
		}
	);
}

#[test]
fn test_support_tag_content_iter_attrs() {
	// -- Setup & Fixtures
	let text = r#"Before <FILE path="a/b.txt" id=123>File Content</FILE> After"#;
	let tag_name = "FILE";

	// -- Exec
	let parts: Vec<PartRef> = TagElemRefIterator::new(text, &[tag_name], true).collect();
	let tags = extract_tag_elem_refs(parts);

	// -- Check
	assert_eq!(tags.len(), 1);

	let mut expected_attrs = AttrsRef::new();
	expected_attrs = expected_attrs.with("path", "a/b.txt");
	expected_attrs = expected_attrs.with("id", "123");

	assert_eq!(
		tags[0],
		TagElemRef {
			tag_name: "FILE",
			attrs_raw: Some(r#"path="a/b.txt" id=123"#),
			content: "File Content",
			start_idx: 7,
			end_idx: 53,
		}
	);
	assert_eq!(parse_attrs_ref(tags[0].attrs_raw), Some(expected_attrs));
}

#[test]
fn test_support_tag_content_iter_attrs_with_newline() {
	// -- Setup & Fixtures
	let text = "Before <FILE \npath=\"a/b.txt\"\n id=123>File Content</FILE> After";
	let tag_name = "FILE";

	// -- Exec
	let parts: Vec<PartRef> = TagElemRefIterator::new(text, &[tag_name], true).collect();
	let tags = extract_tag_elem_refs(parts);

	// -- Check
	assert_eq!(tags.len(), 1);

	let mut expected_attrs = AttrsRef::new();
	expected_attrs = expected_attrs.with("path", "a/b.txt");
	expected_attrs = expected_attrs.with("id", "123");

	assert_eq!(
		tags[0],
		TagElemRef {
			tag_name: "FILE",
			attrs_raw: Some("path=\"a/b.txt\"\n id=123"),
			content: "File Content",
			start_idx: 7,
			end_idx: 55,
		}
	);
	assert_eq!(parse_attrs_ref(tags[0].attrs_raw), Some(expected_attrs));
}

#[test]
fn test_support_tag_content_iter_multiple() {
	// -- Setup & Fixtures
	let text = "Data: <ITEM>one</ITEM>, <ITEM key=val>two</ITEM>.";
	let tag_name = "ITEM";

	// -- Exec
	let parts: Vec<PartRef> = TagElemRefIterator::new(text, &[tag_name], true).collect();
	let tags = extract_tag_elem_refs(parts);

	// -- Check
	assert_eq!(tags.len(), 2);
	assert_eq!(
		tags[0],
		TagElemRef {
			tag_name: "ITEM",
			attrs_raw: None,
			content: "one",
			start_idx: 6,
			end_idx: 21,
		}
	);

	let mut expected_attrs = AttrsRef::new();
	expected_attrs = expected_attrs.with("key", "val");

	assert_eq!(
		tags[1],
		TagElemRef {
			tag_name: "ITEM",
			attrs_raw: Some("key=val"),
			content: "two",
			start_idx: 24,
			end_idx: 47,
		}
	);
	assert_eq!(parse_attrs_ref(tags[1].attrs_raw), Some(expected_attrs));
}

#[test]
fn test_support_tag_content_iter_no_tags() {
	// -- Setup & Fixtures
	let text = "Just plain text without any tags.";
	let tag_name = "MARKER";

	// -- Exec
	let parts: Vec<PartRef> = TagElemRefIterator::new(text, &[tag_name], true).collect();
	let tags = extract_tag_elem_refs(parts);

	// -- Check
	assert!(tags.is_empty());
}

#[test]
fn test_support_tag_content_iter_empty_content() {
	// -- Setup & Fixtures
	let text = "<EMPTY></EMPTY>";
	let tag_name = "EMPTY";

	// -- Exec
	let parts: Vec<PartRef> = TagElemRefIterator::new(text, &[tag_name], true).collect();
	let tags = extract_tag_elem_refs(parts);

	// -- Check
	assert_eq!(tags.len(), 1);
	assert_eq!(
		tags[0],
		TagElemRef {
			tag_name: "EMPTY",
			attrs_raw: None,
			content: "",
			start_idx: 0,
			end_idx: 14,
		}
	);
}

#[test]
fn test_support_tag_content_iter_nested_like() {
	// -- Setup & Fixtures
	let text = "<OUTER>outer <INNER>inner</INNER> outer</OUTER>";
	let tag_name_outer = "OUTER";
	let tag_name_inner = "INNER";

	// -- Exec Outer
	let parts_outer: Vec<PartRef> = TagElemRefIterator::new(text, &[tag_name_outer], true).collect();
	let tags_outer = extract_tag_elem_refs(parts_outer);
	// -- Check Outer
	assert_eq!(tags_outer.len(), 1);
	assert_eq!(
		tags_outer[0],
		TagElemRef {
			tag_name: "OUTER",
			attrs_raw: None,
			content: "outer <INNER>inner</INNER> outer",
			start_idx: 0,
			end_idx: 46,
		}
	);

	// -- Exec Inner
	let parts_inner: Vec<PartRef> = TagElemRefIterator::new(text, &[tag_name_inner], true).collect();
	let tags_inner = extract_tag_elem_refs(parts_inner);
	// -- Check Inner
	assert_eq!(tags_inner.len(), 1);
	assert_eq!(
		tags_inner[0],
		TagElemRef {
			tag_name: "INNER",
			attrs_raw: None,
			content: "inner",
			start_idx: 13,
			end_idx: 32,
		}
	);
}

#[test]
fn test_support_tag_content_iter_malformed_open() {
	// -- Setup & Fixtures
	let text = "<MARKER oops </MARKER>"; // Missing '>'
	let tag_name = "MARKER";

	// -- Exec
	let parts: Vec<PartRef> = TagElemRefIterator::new(text, &[tag_name], true).collect();
	let tags = extract_tag_elem_refs(parts);

	// -- Check
	// The current implementation stops if '>' isn't found for the opening tag.
	assert!(tags.is_empty());
}

#[test]
fn test_support_tag_content_iter_unclosed() {
	// -- Setup & Fixtures
	let text = "<MARKER>content"; // Missing closing tag
	let tag_name = "MARKER";

	// -- Exec
	let parts: Vec<PartRef> = TagElemRefIterator::new(text, &[tag_name], true).collect();
	let tags = extract_tag_elem_refs(parts);

	// -- Check
	// The current implementation stops if the closing tag isn't found.
	assert!(tags.is_empty());
}

#[test]
fn test_support_tag_content_iter_edges() {
	// -- Setup & Fixtures
	let text = "<START>at start</START>middle<END>at end</END>";
	let tag_name_start = "START";
	let tag_name_end = "END";

	// -- Exec Start
	let parts_start: Vec<PartRef> = TagElemRefIterator::new(text, &[tag_name_start], true).collect();
	let tags_start = extract_tag_elem_refs(parts_start);
	// -- Check Start
	assert_eq!(tags_start.len(), 1);
	assert_eq!(
		tags_start[0],
		TagElemRef {
			tag_name: "START",
			attrs_raw: None,
			content: "at start",
			start_idx: 0,
			end_idx: 22,
		}
	);

	// -- Exec End
	let parts_end: Vec<PartRef> = TagElemRefIterator::new(text, &[tag_name_end], true).collect();
	let tags_end = extract_tag_elem_refs(parts_end);
	// -- Check End
	assert_eq!(tags_end.len(), 1);
	assert_eq!(
		tags_end[0],
		TagElemRef {
			tag_name: "END",
			attrs_raw: None,
			content: "at end",
			start_idx: 29,
			end_idx: 45,
		}
	);
}

#[test]
fn test_support_tag_content_iter_incorrect_tag_name() {
	// -- Setup & Fixtures
	let text = "<MARKERX>content</MARKERX>";
	let tag_name = "MARKER"; // Searching for MARKER, not MARKERX

	// -- Exec
	let parts: Vec<PartRef> = TagElemRefIterator::new(text, &[tag_name], true).collect();
	let tags = extract_tag_elem_refs(parts);

	// -- Check
	assert!(tags.is_empty());
}

#[test]
fn test_support_tag_content_iter_tag_name_prefix_check() {
	// -- Setup & Fixtures
	let text = "<TAG_EXTRA>extra</TAG_EXTRA><TAG>real</TAG>";
	let tag_name = "TAG";

	// -- Exec
	let parts: Vec<PartRef> = TagElemRefIterator::new(text, &[tag_name], true).collect();
	let tags = extract_tag_elem_refs(parts);

	// -- Check
	assert_eq!(tags.len(), 1);
	assert_eq!(
		tags[0],
		TagElemRef {
			tag_name: "TAG",
			attrs_raw: None,
			content: "real",
			start_idx: 28,
			end_idx: 42,
		}
	);
}

#[test]
fn test_support_tag_content_iter_multiple_tag_names() {
	// -- Setup & Fixtures
	let text = "Alpha <ONE>first</ONE> Beta <TWO attr=ok>second</TWO> Gamma";
	let tag_names = ["ONE", "TWO"];

	// -- Exec
	let parts: Vec<PartRef> = TagElemRefIterator::new(text, &tag_names, true).collect();
	let tags = extract_tag_elem_refs(parts);

	// -- Check
	assert_eq!(tags.len(), 2);
	assert_eq!(
		tags[0],
		TagElemRef {
			tag_name: "ONE",
			attrs_raw: None,
			content: "first",
			start_idx: 6,
			end_idx: 21,
		}
	);

	let mut expected_attrs = AttrsRef::new();
	expected_attrs = expected_attrs.with("attr", "ok");

	assert_eq!(
		tags[1],
		TagElemRef {
			tag_name: "TWO",
			attrs_raw: Some("attr=ok"),
			content: "second",
			start_idx: 28,
			end_idx: 52,
		}
	);
	assert_eq!(parse_attrs_ref(tags[1].attrs_raw), Some(expected_attrs));
}

#[test]
fn test_support_tag_content_iter_partref_simple() {
	// -- Setup & Fixtures
	let text = "Some text <DATA>content</DATA> more text.";
	let tag_name = "DATA";

	// -- Exec
	let parts: Vec<PartRef> = TagElemRefIterator::new(text, &[tag_name], true).collect();

	// -- Check
	assert_eq!(parts.len(), 3);
	assert_eq!(parts[0], PartRef::Text("Some text "));
	assert!(matches!(parts[1], PartRef::TagElemRef(_)));
	assert_eq!(parts[2], PartRef::Text(" more text."));
}

#[test]
fn test_support_tag_content_iter_partref_no_tags() {
	// -- Setup & Fixtures
	let text = "Just plain text without any tags.";
	let tag_name = "MARKER";

	// -- Exec
	let parts: Vec<PartRef> = TagElemRefIterator::new(text, &[tag_name], true).collect();

	// -- Check
	assert_eq!(parts.len(), 1);
	assert_eq!(parts[0], PartRef::Text("Just plain text without any tags."));
}

#[test]
fn test_support_tag_content_iter_partref_tag_at_start() {
	// -- Setup & Fixtures
	let text = "<DATA>content</DATA> after";
	let tag_name = "DATA";

	// -- Exec
	let parts: Vec<PartRef> = TagElemRefIterator::new(text, &[tag_name], true).collect();

	// -- Check
	assert_eq!(parts.len(), 2);
	assert!(matches!(parts[0], PartRef::TagElemRef(_)));
	assert_eq!(parts[1], PartRef::Text(" after"));
}

#[test]
fn test_support_tag_content_iter_partref_tag_at_end() {
	// -- Setup & Fixtures
	let text = "before <DATA>content</DATA>";
	let tag_name = "DATA";

	// -- Exec
	let parts: Vec<PartRef> = TagElemRefIterator::new(text, &[tag_name], true).collect();

	// -- Check
	assert_eq!(parts.len(), 2);
	assert_eq!(parts[0], PartRef::Text("before "));
	assert!(matches!(parts[1], PartRef::TagElemRef(_)));
}

#[test]
fn test_support_tag_content_iter_partref_only_tag() {
	// -- Setup & Fixtures
	let text = "<DATA>content</DATA>";
	let tag_name = "DATA";

	// -- Exec
	let parts: Vec<PartRef> = TagElemRefIterator::new(text, &[tag_name], true).collect();

	// -- Check
	assert_eq!(parts.len(), 1);
	assert!(matches!(parts[0], PartRef::TagElemRef(_)));
}

#[test]
fn test_support_tag_content_iter_partref_multiple_tags() {
	// -- Setup & Fixtures
	let text = "A <X>1</X> B <X>2</X> C";
	let tag_name = "X";

	// -- Exec
	let parts: Vec<PartRef> = TagElemRefIterator::new(text, &[tag_name], true).collect();

	// -- Check
	assert_eq!(parts.len(), 5);
	assert_eq!(parts[0], PartRef::Text("A "));
	assert!(matches!(parts[1], PartRef::TagElemRef(_)));
	assert_eq!(parts[2], PartRef::Text(" B "));
	assert!(matches!(parts[3], PartRef::TagElemRef(_)));
	assert_eq!(parts[4], PartRef::Text(" C"));
}

#[test]
fn test_support_tag_content_iter_partref_adjacent_tags() {
	// -- Setup & Fixtures
	let text = "<A>1</A><B>2</B>";
	let tag_names = ["A", "B"];

	// -- Exec
	let parts: Vec<PartRef> = TagElemRefIterator::new(text, &tag_names, true).collect();

	// -- Check
	assert_eq!(parts.len(), 2);
	assert!(matches!(parts[0], PartRef::TagElemRef(_)));
	assert!(matches!(parts[1], PartRef::TagElemRef(_)));
}

#[test]
fn test_support_tag_content_iter_partref_empty_input() {
	// -- Setup & Fixtures
	let text = "";
	let tag_name = "DATA";

	// -- Exec
	let parts: Vec<PartRef> = TagElemRefIterator::new(text, &[tag_name], true).collect();

	// -- Check
	assert!(parts.is_empty());
}
