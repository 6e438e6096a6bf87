use getdoc::report::item_header_name_logic;
use getdoc::report::ExtractedItem;
use getdoc::text::join_strings;
use getdoc::text::sort_strings;
use getdoc::text::split_lines;
use getdoc::text::text_after_last;
use getdoc::text::trim;
use getdoc::text::trim_end;
use getdoc::text::u64_to_string;

fn item(kind: &str, name: &str, signature: &str, is_sub_item: bool) -> ExtractedItem {
    ExtractedItem {
        item_kind: kind.to_string(),
        name: name.to_string(),
        signature_or_definition: signature.to_string(),
        doc_comments: vec![],
        is_sub_item,
    }
}

#[test]
fn impl_block_heading_stops_at_the_brace() {
    let it = item(
        "Trait Impl Block",
        "impl Display for Foo",
        "impl Display for Foo { fn fmt (...) }",
        false,
    );
    assert_eq!(item_header_name_logic(&it), "impl Display for Foo");
}

#[test]
fn impl_block_heading_without_brace_is_the_whole_definition() {
    let it = item("Inherent Impl Block", "impl Foo", "  impl Foo  ", false);
    assert_eq!(item_header_name_logic(&it), "impl Foo");
}

#[test]
fn unnamed_module_gets_a_fixed_heading() {
    let it = item("Module", "", "mod ;", false);
    assert_eq!(item_header_name_logic(&it), "Unnamed Module");
}

#[test]
fn ordinary_items_use_their_own_name() {
    let it = item("Function", "do_work", "pub fn do_work()", false);
    assert_eq!(item_header_name_logic(&it), "do_work");
}

#[test]
fn sorting_is_lexicographic_by_characters() {
    let v = vec!["pear".to_string(), "apple".to_string(), "Pear".to_string(), "apple".to_string()];
    let sorted = sort_strings(&v);
    assert_eq!(
        sorted,
        vec!["Pear".to_string(), "apple".to_string(), "apple".to_string(), "pear".to_string()]
    );
}

#[test]
fn joining_inserts_the_separator_between_entries() {
    let v = vec!["a".to_string(), "b".to_string(), "c".to_string()];
    assert_eq!(join_strings(&v, ", "), "a, b, c");
    assert_eq!(join_strings(&vec![], ", "), "");
    assert_eq!(join_strings(&vec!["only".to_string()], ", "), "only");
}

#[test]
fn line_splitting_matches_line_semantics() {
    assert_eq!(split_lines("a\nb\r\nc"), vec!["a", "b", "c"]);
    assert_eq!(split_lines("a\n"), vec!["a"]);
    assert_eq!(split_lines(""), Vec::<String>::new());
    assert_eq!(split_lines("a\n\nb"), vec!["a", "", "b"]);
}

#[test]
fn trimming_removes_ascii_whitespace() {
    assert_eq!(trim_end("x  \t\r\n"), "x");
    assert_eq!(trim("  \t x y \n"), "x y");
    assert_eq!(trim("   "), "");
}

#[test]
fn decimal_rendering_of_line_numbers() {
    assert_eq!(u64_to_string(0), "0");
    assert_eq!(u64_to_string(7), "7");
    assert_eq!(u64_to_string(120350), "120350");
    assert_eq!(u64_to_string(u64::MAX), "18446744073709551615");
}

#[test]
fn file_name_is_the_text_after_the_last_separator() {
    assert_eq!(text_after_last("/a/b/lib.rs", '/'), "lib.rs");
    assert_eq!(text_after_last("lib.rs", '/'), "lib.rs");
    assert_eq!(text_after_last("/a/b/", '/'), "");
}
