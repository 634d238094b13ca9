use layout_sync::key::IdentityKey;
use layout_sync::path::FilePath;

fn path(text: &str) -> FilePath {
    if text.is_empty() {
        FilePath::new(Vec::new())
    } else {
        FilePath::new(text.split('/').map(|part| part.to_string()).collect())
    }
}

fn rooted(text: &str) -> FilePath {
    let mut components = vec!["/".to_string()];
    components.extend(text.split('/').map(|part| part.to_string()));
    FilePath::new(components)
}

fn key(size: u64, name: &str) -> IdentityKey {
    IdentityKey::new(size, name.to_string())
}

#[test]
fn new_path_keeps_its_components() {
    let made = FilePath::new(vec!["a".to_string(), "b.txt".to_string()]);
    assert_eq!(made.components, vec!["a".to_string(), "b.txt".to_string()]);
}

#[test]
fn duplicate_of_a_path_is_the_same_path() {
    let original = path("x/y/z.jpg");
    let copy = original.duplicate();
    assert_eq!(copy, original);
    assert!(copy.same_as(&original));
}

#[test]
fn same_as_compares_component_by_component() {
    assert!(path("a/b").same_as(&path("a/b")));
    assert!(!path("a/b").same_as(&path("a/c")));
    assert!(!path("a/b").same_as(&path("a")));
    assert!(!path("a").same_as(&path("a/b")));
    assert!(!path("ab").same_as(&path("a/b")));
    assert!(path("").same_as(&path("")));
}

#[test]
fn file_name_is_the_last_component() {
    assert_eq!(path("photos/2020/a.jpg").file_name(), Some("a.jpg".to_string()));
    assert_eq!(path("a.jpg").file_name(), Some("a.jpg".to_string()));
    assert_eq!(rooted("data/a.jpg").file_name(), Some("a.jpg".to_string()));
}

#[test]
fn file_name_is_missing_on_empty_and_special_ends() {
    assert_eq!(path("").file_name(), None);
    assert_eq!(path("a/..").file_name(), None);
    assert_eq!(path(".").file_name(), None);
    assert_eq!(FilePath::new(vec!["/".to_string()]).file_name(), None);
}

#[test]
fn file_name_accepts_names_that_only_look_special() {
    assert_eq!(path("a/...").file_name(), Some("...".to_string()));
    assert_eq!(path("a/.b").file_name(), Some(".b".to_string()));
    assert_eq!(path("a/é").file_name(), Some("é".to_string()));
    assert_eq!(path("a/-").file_name(), Some("-".to_string()));
}

#[test]
fn is_relative_tells_rooted_paths_apart() {
    assert!(path("a/b").is_relative());
    assert!(path("").is_relative());
    assert!(path("./a").is_relative());
    assert!(path("../a").is_relative());
    assert!(!rooted("a/b").is_relative());
    assert!(!FilePath::new(vec!["/".to_string()]).is_relative());
}

#[test]
fn strip_prefix_gives_the_rest_below_the_base() {
    assert_eq!(rooted("data/photos/x/a.jpg").strip_prefix(&rooted("data/photos")), Some(path("x/a.jpg")));
    assert_eq!(path("src/x/a.jpg").strip_prefix(&path("src")), Some(path("x/a.jpg")));
    assert_eq!(path("a/b").strip_prefix(&path("a/b")), Some(path("")));
    assert_eq!(path("a/b").strip_prefix(&path("")), Some(path("a/b")));
}

#[test]
fn strip_prefix_fails_where_the_base_is_no_prefix() {
    assert_eq!(path("a/b").strip_prefix(&path("b")), None);
    assert_eq!(path("a").strip_prefix(&path("a/b")), None);
    assert_eq!(path("ab/c").strip_prefix(&path("a")), None);
    assert_eq!(rooted("a/b").strip_prefix(&path("a")), None);
    assert_eq!(path("a/b").strip_prefix(&rooted("a")), None);
}

#[test]
fn text_joins_the_components_with_slashes() {
    assert_eq!(path("photos/2020/a.jpg").text(), "photos/2020/a.jpg");
    assert_eq!(path("a.jpg").text(), "a.jpg");
    assert_eq!(path("").text(), "");
    assert_eq!(FilePath::new(vec!["".to_string(), "a".to_string()]).text(), "/a");
}

#[test]
fn new_key_keeps_size_and_name() {
    let made = key(1000, "a.jpg");
    assert_eq!(made.size, 1000);
    assert_eq!(made.name, "a.jpg");
}

#[test]
fn duplicate_of_a_key_is_the_same_key() {
    let original = key(7, "x");
    assert_eq!(original.duplicate(), original);
    assert!(original.duplicate().same_as(&original));
}

#[test]
fn keys_are_the_same_only_with_same_size_and_name() {
    assert!(key(1000, "a.jpg").same_as(&key(1000, "a.jpg")));
    assert!(!key(1000, "a.jpg").same_as(&key(1001, "a.jpg")));
    assert!(!key(1000, "a.jpg").same_as(&key(1000, "b.jpg")));
    assert!(!key(1000, "a.jpg").same_as(&key(1000, "a.jpg ")));
}

#[test]
fn keys_are_ordered_by_size_first() {
    assert!(key(1, "z").before(&key(2, "a")));
    assert!(!key(2, "a").before(&key(1, "z")));
    assert!(key(0, "").before(&key(u64::MAX, "")));
}

#[test]
fn keys_of_one_size_are_ordered_by_the_bytes_of_the_name() {
    assert!(key(5, "a").before(&key(5, "b")));
    assert!(!key(5, "b").before(&key(5, "a")));
    assert!(key(5, "a").before(&key(5, "ab")));
    assert!(!key(5, "ab").before(&key(5, "a")));
    assert!(key(5, "").before(&key(5, "a")));
    assert!(key(5, "B").before(&key(5, "a")));
    assert!(key(5, "z").before(&key(5, "é")));
    assert!(key(5, "a10").before(&key(5, "a9")));
}

#[test]
fn no_key_comes_before_itself() {
    assert!(!key(5, "a").before(&key(5, "a")));
    assert!(!key(0, "").before(&key(0, "")));
}
