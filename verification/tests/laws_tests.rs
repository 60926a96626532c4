//! What holds of the parts of every input, tried on a number of inputs.

use markex::tag::{extract, extract_refs, Part, PartRef, TagElem};

const INPUTS: [&str; 12] = [
	"",
	"plain text",
	"<A>1</A>",
	"x<A>1</A>y<B k=v>2</B>z",
	"<A>1</A><A>2</A>",
	"<AB>1</AB><A>2</A>",
	"<A oops </A>",
	"<A>never closed <B>2</B>",
	"<Ax>1</Ax><A\n>2</A>",
	"é<A ü='ö'>日本語</A>😀<B>😀</B>",
	"<<A>></A>>",
	"<A></A",
];

const NAME_SETS: [&[&str]; 5] = [&[], &["A"], &["A", "B"], &["AB", "A"], &["B", "A", "Ax"]];

#[test]
fn test_law_reconstruction() {
	for input in INPUTS {
		for names in NAME_SETS {
			let mut rebuilt = String::new();
			let mut boundary = 0;
			for part in extract_refs(input, names, true) {
				match part {
					PartRef::Text(text) => {
						rebuilt.push_str(text);
						boundary += text.len();
					}
					PartRef::TagElemRef(elem) => {
						assert_eq!(elem.start_idx, boundary);
						assert!(elem.start_idx < elem.end_idx);
						assert!(elem.end_idx < input.len());
						rebuilt.push_str(&input[elem.start_idx..=elem.end_idx]);
						boundary = elem.end_idx + 1;
					}
				}
			}
			assert_eq!(rebuilt, input);
			assert_eq!(boundary, input.len());
		}
	}
}

#[test]
fn test_law_reconstruction_exact_spans() {
	let input = "x<A>1</A>y<B k=v>2</B>z";
	let parts = extract_refs(input, &["A", "B"], true).into_parts();
	assert_eq!(parts.len(), 5);
	assert_eq!(parts[0], PartRef::Text("x"));
	match &parts[1] {
		PartRef::TagElemRef(elem) => assert_eq!(&input[elem.start_idx..=elem.end_idx], "<A>1</A>"),
		PartRef::Text(_) => panic!("an element was expected"),
	}
	assert_eq!(parts[2], PartRef::Text("y"));
	match &parts[3] {
		PartRef::TagElemRef(elem) => assert_eq!(&input[elem.start_idx..=elem.end_idx], "<B k=v>2</B>"),
		PartRef::Text(_) => panic!("an element was expected"),
	}
	assert_eq!(parts[4], PartRef::Text("z"));
}

#[test]
fn test_law_no_tag_invariance() {
	for input in ["plain text", "<a>lower case</a>", "< A>1</ A>", "é😀"] {
		for names in [&["A"][..], &["A", "B"][..], &["XYZ"][..]] {
			let with_text = extract(input, names, true).into_parts();
			assert_eq!(with_text, vec![Part::Text(input.to_string())]);
			let without_text = extract(input, names, false).into_parts();
			assert!(without_text.is_empty());
		}
	}
}

#[test]
fn test_law_no_tag_invariance_on_empty_input() {
	assert!(extract("", &["A"], true).into_parts().is_empty());
	assert!(extract("", &["A"], false).into_parts().is_empty());
}

#[test]
fn test_law_text_suppression() {
	for input in INPUTS {
		for names in NAME_SETS {
			let without_text: Vec<TagElem> = extract(input, names, false).into_tag_elems();
			let with_text: Vec<TagElem> = extract(input, names, true).into_tag_elems();
			assert_eq!(without_text, with_text);
			let only_elements = extract(input, names, false);
			assert_eq!(only_elements.parts().len(), without_text.len());
			assert!(only_elements.texts().is_empty());
		}
	}
}

#[test]
fn test_law_text_suppression_exact() {
	let input = "x<A>1</A>y<B k=v>2</B>z";
	let parts = extract(input, &["A", "B"], false).into_parts();
	assert_eq!(parts.len(), 2);
	assert_eq!(parts[0], Part::TagElem(TagElem::new("A", None, "1")));
	match &parts[1] {
		Part::TagElem(elem) => {
			assert_eq!(elem.tag, "B");
			assert_eq!(elem.content, "2");
			match &elem.attrs {
				Some(attrs) => assert_eq!(attrs.get("k"), Some("v")),
				None => panic!("attributes were expected"),
			}
		}
		Part::Text(_) => panic!("an element was expected"),
	}
}

#[test]
fn test_law_elements_are_well_placed() {
	for input in INPUTS {
		for names in NAME_SETS {
			let parts = extract_refs(input, names, true);
			for elem in parts.tag_elems() {
				let bytes = input.as_bytes();
				assert!(names.contains(&elem.tag_name));
				assert_eq!(bytes[elem.start_idx], b'<');
				assert_eq!(bytes[elem.end_idx], b'>');
				let after = elem.start_idx + 1 + elem.tag_name.len();
				assert!(matches!(bytes[after], b'>' | b' ' | b'\n' | b'\t' | b'\r'));
				assert_eq!(&input[elem.start_idx + 1..after], elem.tag_name);
				let close = format!("</{}>", elem.tag_name);
				assert!(!elem.content.contains(&close));
				assert!(input[..=elem.end_idx].ends_with(&close));
				for name in names {
					if input[elem.start_idx + 1..].starts_with(name) {
						assert!(name.len() <= elem.tag_name.len());
					}
				}
			}
		}
	}
}

#[test]
fn test_joined_text_is_input_without_elements() {
	let input = "Alpha <ONE>first</ONE> Beta <TWO attr=ok>second</TWO> Gamma";
	let (elems, text) = extract(input, &["ONE", "TWO"], true).into_with_extrude_content();
	assert_eq!(elems.len(), 2);
	assert_eq!(text, "Alpha  Beta  Gamma");
}
