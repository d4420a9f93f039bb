use bookmark_picker::bookmarks::BookmarkItem;
use bookmark_picker::config::unescape_path;
use bookmark_picker::select::{find_by_name, picker_input, search_bookmarks};

fn item(name: &str, url: &str) -> BookmarkItem {
    BookmarkItem { name: name.to_string(), url: url.to_string() }
}

#[test]
fn picker_input_joins_names_with_newlines() {
    let items = vec![item("a", "1"), item("b c", "2"), item("d", "3")];
    assert_eq!(picker_input(&items), "a\nb c\nd");
    assert_eq!(picker_input(&items[..1]), "a");
    assert_eq!(picker_input(&[]), "");
}

#[test]
fn trimmed_output_selects_matching_item() {
    let items = vec![item("Rust", "https://rust-lang.org"), item("Docs", "https://docs.rs")];
    assert_eq!(search_bookmarks(&items, true, "Docs\n").unwrap().url, "https://docs.rs");
    assert_eq!(search_bookmarks(&items, true, "  Rust \t\n").unwrap().url, "https://rust-lang.org");
    assert_eq!(search_bookmarks(&items, true, "Docs").unwrap().url, "https://docs.rs");
}

#[test]
fn unknown_name_selects_nothing() {
    let items = vec![item("Rust", "https://rust-lang.org")];
    assert!(search_bookmarks(&items, true, "rust\n").is_none());
    assert!(search_bookmarks(&items, true, "\n").is_none());
    assert!(find_by_name(&items, "Rust ").is_none());
}

#[test]
fn duplicate_names_resolve_to_first() {
    let items = vec![item("x", "first"), item("y", "other"), item("x", "second")];
    assert_eq!(search_bookmarks(&items, true, "x\n").unwrap().url, "first");
    assert_eq!(find_by_name(&items, "x").unwrap().url, "first");
    assert_eq!(find_by_name(&items, "y").unwrap().url, "other");
}

#[test]
fn failed_picker_selects_nothing_whatever_it_printed() {
    let items = vec![item("Rust", "https://rust-lang.org")];
    assert!(search_bookmarks(&items, false, "Rust\n").is_none());
    assert!(search_bookmarks(&items, false, "Rust").is_none());
    assert!(search_bookmarks(&items, false, "").is_none());
}

#[test]
fn escaped_spaces_in_path_are_unescaped() {
    assert_eq!(unescape_path("/Users/me/Library/Application\\ Support/Bookmarks"), "/Users/me/Library/Application Support/Bookmarks");
    assert_eq!(unescape_path("a\\ b\\ c"), "a b c");
    assert_eq!(unescape_path("\\\\ x"), "\\ x");
    assert_eq!(unescape_path("end\\"), "end\\");
    assert_eq!(unescape_path("plain/päth"), "plain/päth");
    assert_eq!(unescape_path(""), "");
}
