//! The search patterns of a tag name.

use vstd::prelude::*;
use vstd::string::*;
use crate::tag::model::{close_delim, open_prefix, GT, LT, SLASH};
use crate::tag::text::{bytes_of, lemma_bytes_of_ascii, lemma_bytes_of_concat};

verus! {

/// The patterns by which the tags of one name are found.
pub struct TagPattern {
    /// The tag name (e.g., "FILE").
    pub name: String,
    /// The opening prefix (e.g., "<FILE"), by which the start of a tag is found.
    pub start_tag_prefix: String,
    /// The closing delimiter (e.g., "</FILE>"), by which the end of an element is found.
    pub end_tag: String,
}

impl TagPattern {
    /// The bytes of the tag name.
    pub open spec fn name_bytes(&self) -> Seq<u8> {
        bytes_of(self.name@)
    }

    /// The two patterns are those of the name.
    pub open spec fn wf(&self) -> bool {
        &&& bytes_of(self.start_tag_prefix@) == open_prefix(self.name_bytes())
        &&& bytes_of(self.end_tag@) == close_delim(self.name_bytes())
    }

    /// The patterns of `tag_name`. The name is taken as it is: nothing is
    /// trimmed, and upper and lower case differ.
    pub fn new(tag_name: &str) -> (p: Self)
        ensures
            p.wf(),
            p.name@ == tag_name@,
    {
        let name = tag_name.to_owned();
        let mut start_tag_prefix = String::from_str("<");
        start_tag_prefix.append(tag_name);
        let mut end_tag = String::from_str("</");
        end_tag.append(tag_name);
        end_tag.append(">");
        proof {
            reveal_strlit("<");
            reveal_strlit("</");
            reveal_strlit(">");
            lemma_bytes_of_ascii("<"@);
            lemma_bytes_of_ascii("</"@);
            lemma_bytes_of_ascii(">"@);
            assert(bytes_of("<"@) =~= seq![LT]);
            assert(bytes_of("</"@) =~= seq![LT, SLASH]);
            assert(bytes_of(">"@) =~= seq![GT]);
            lemma_bytes_of_concat("<"@, tag_name@);
            lemma_bytes_of_concat("</"@, tag_name@);
            lemma_bytes_of_concat("</"@ + tag_name@, ">"@);
        }
        TagPattern { name, start_tag_prefix, end_tag }
    }
}

} // verus!
