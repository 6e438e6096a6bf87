//! Report-side data: the items the syntax extractor collaborator hands
//! back for an implicated file, and the heading text the renderer shows
//! for each.

use vstd::prelude::*;

use crate::text::contains_text;
use crate::text::find_char;
use crate::text::first_index_of;
use crate::text::is_text_prefix;
use crate::text::lemma_first_index_of;
use crate::text::str_contains;
use crate::text::str_eq;
use crate::text::str_starts_with;
use crate::text::trim;
use crate::text::trim_text;

verus! {

/// One displayable item extracted from a third-party source file.
pub struct ExtractedItem {
    pub item_kind: String,
    pub name: String,
    pub signature_or_definition: String,
    pub doc_comments: Vec<String>,
    pub is_sub_item: bool,
}

pub struct ItemModel {
    pub item_kind: Seq<char>,
    pub name: Seq<char>,
    pub signature_or_definition: Seq<char>,
    pub doc_comments: Seq<Seq<char>>,
    pub is_sub_item: bool,
}

impl View for ExtractedItem {
    type V = ItemModel;

    open spec fn view(&self) -> ItemModel {
        ItemModel {
            item_kind: self.item_kind@,
            name: self.name@,
            signature_or_definition: self.signature_or_definition@,
            doc_comments: crate::text::string_views(self.doc_comments@),
            is_sub_item: self.is_sub_item,
        }
    }
}

/// The heading text of one extracted item: an impl block shows its
/// definition up to the opening brace, trimmed; a nameless module a
/// fixed phrase; everything else its own name.
pub open spec fn item_header_name_spec(item: ItemModel) -> Seq<char> {
    if contains_text(item.item_kind, "Impl Block"@) && is_text_prefix("impl "@, item.name) {
        trim_text(
            item.signature_or_definition.subrange(
                0,
                first_index_of(item.signature_or_definition, '{'),
            ),
        )
    } else if item.item_kind == "Module"@ && item.name.len() == 0 {
        "Unnamed Module"@
    } else {
        item.name
    }
}

/// Computes the heading text of one extracted item.
pub fn item_header_name_logic(item: &ExtractedItem) -> (r: String)
    ensures
        r@ == item_header_name_spec(item@),
{
    let is_impl_block = str_contains(item.item_kind.as_str(), "Impl Block") && str_starts_with(
        item.name.as_str(),
        "impl ",
    );
    if is_impl_block {
        let sig = item.signature_or_definition.as_str();
        proof {
            lemma_first_index_of(sig@, '{');
        }
        let cut = find_char(sig, '{');
        let head = sig.substring_char(0, cut);
        trim(head)
    } else if str_eq(item.item_kind.as_str(), "Module") && item.name.as_str().unicode_len() == 0 {
        String::from_str("Unnamed Module")
    } else {
        item.name.clone()
    }
}

} // verus!
