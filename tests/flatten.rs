use bookmark_picker::bookmarks::{parse_bookmarks, parse_bookmarks_recursive, BookmarkItem};
use bookmark_picker::select::{picker_input, search_bookmarks};
use bookmark_picker::value::Value;

fn text(s: &str) -> Value {
    Value::Text(s.to_string())
}

fn object(members: Vec<(&str, Value)>) -> Value {
    Value::Object(members.into_iter().map(|(k, v)| (k.to_string(), v)).collect())
}

fn bookmark(name: &str, url: &str) -> Value {
    object(vec![("name", text(name)), ("url", text(url)), ("type", text("url"))])
}

fn folder(name: &str, children: Vec<Value>) -> Value {
    object(vec![("name", text(name)), ("children", Value::Array(children))])
}

fn document(bar: Value) -> Value {
    object(vec![("roots", object(vec![("bookmark_bar", bar)]))])
}

fn names(items: &[BookmarkItem]) -> Vec<&str> {
    items.iter().map(|b| b.name.as_str()).collect()
}

#[test]
fn example_tree_collects_siblings_before_folder_contents() {
    let doc = document(folder(
        "Bookmarks bar",
        vec![bookmark("A", "http://a"), folder("Folder", vec![bookmark("B", "http://b")])],
    ));
    let items = parse_bookmarks(&doc);
    // The bar's own children are collected when the bar is taken; the folder's when it is.
    assert_eq!(names(&items), vec!["A", "B"]);
    assert_eq!(items[0].url, "http://a");
    assert_eq!(items[1].url, "http://b");
    let picked = search_bookmarks(&items, true, "B\n").expect("B is listed");
    assert_eq!(picked.url, "http://b");
}

#[test]
fn nested_folders_follow_the_work_list() {
    let doc = document(folder(
        "bar",
        vec![
            folder("F1", vec![bookmark("a1", "u:a1"), bookmark("a2", "u:a2")]),
            bookmark("x", "u:x"),
            folder(
                "F2",
                vec![bookmark("b1", "u:b1"), folder("F3", vec![bookmark("c1", "u:c1")])],
            ),
        ],
    ));
    let items = parse_bookmarks(&doc);
    assert_eq!(names(&items), vec!["x", "b1", "c1", "a1", "a2"]);
    let again = parse_bookmarks(&doc);
    assert_eq!(items, again);
}

#[test]
fn children_missing_a_field_are_skipped_but_descended() {
    let doc = document(folder(
        "bar",
        vec![
            object(vec![("name", text("only name"))]),
            object(vec![("url", text("http://only-url"))]),
            object(vec![("name", text("numeric url")), ("url", Value::Number("7".to_string()))]),
            object(vec![("name", Value::Null), ("url", text("http://null-name"))]),
            object(vec![
                ("children", Value::Array(vec![bookmark("deep", "http://deep")])),
            ]),
            bookmark("kept", "http://kept"),
        ],
    ));
    let items = parse_bookmarks(&doc);
    assert_eq!(names(&items), vec!["kept", "deep"]);
    for item in &items {
        assert!(!item.name.is_empty());
        assert!(!item.url.is_empty());
    }
}

#[test]
fn folder_with_url_is_collected_and_descended() {
    let odd = object(vec![
        ("name", text("odd")),
        ("url", text("http://odd")),
        ("children", Value::Array(vec![bookmark("inner", "http://inner")])),
    ]);
    let doc = document(folder("bar", vec![odd, bookmark("plain", "http://plain")]));
    let items = parse_bookmarks(&doc);
    assert_eq!(names(&items), vec!["odd", "plain", "inner"]);
}

#[test]
fn children_that_are_not_an_array_are_ignored() {
    let doc = document(object(vec![("children", text("nope"))]));
    assert!(parse_bookmarks(&doc).is_empty());
    let doc = document(object(vec![("children", Value::Array(vec![]))]));
    assert!(parse_bookmarks(&doc).is_empty());
}

#[test]
fn missing_bookmark_bar_gives_nothing() {
    let doc = object(vec![("roots", object(vec![("other", folder("o", vec![bookmark("a", "u")]))]))]);
    let items = parse_bookmarks(&doc);
    assert!(items.is_empty());
    assert_eq!(picker_input(&items), "");
    assert!(search_bookmarks(&items, true, "").is_none());
    assert!(search_bookmarks(&items, true, "a\n").is_none());
    assert!(parse_bookmarks(&object(vec![])).is_empty());
    assert!(parse_bookmarks(&Value::Array(vec![])).is_empty());
    assert!(parse_bookmarks(&Value::Bool(true)).is_empty());
}

#[test]
fn results_are_appended_after_existing_items() {
    let doc = document(folder("bar", vec![bookmark("n", "http://n")]));
    let mut result = vec![BookmarkItem { name: "old".to_string(), url: "http://old".to_string() }];
    parse_bookmarks_recursive(&doc, &mut result);
    assert_eq!(names(&result), vec!["old", "n"]);
    assert_eq!(result[1].url, "http://n");
}

#[test]
fn value_accessors() {
    let v = object(vec![("k", text("first")), ("n", Value::Number("1.5".to_string()))]);
    assert_eq!(v.get("k").and_then(|x| x.as_str()), Some("first"));
    assert!(v.get("n").unwrap().as_str().is_none());
    assert!(v.get("missing").is_none());
    assert!(text("s").get("k").is_none());
    let arr = Value::Array(vec![Value::Null, Value::Bool(false)]);
    assert_eq!(arr.as_array().map(|a| a.len()), Some(2));
    assert!(v.as_array().is_none());
}
