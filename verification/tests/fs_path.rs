use visual_du::fs::path::{is_file_name, join_path, parent_key, path_ordered, relative_key};

#[test]
fn relative_key_strips_the_root() {
    assert_eq!(relative_key("/scan", "/scan"), Some(String::new()));
    assert_eq!(relative_key("/scan", "/scan/a"), Some("a".to_string()));
    assert_eq!(relative_key("/scan", "/scan/a/b.txt"), Some("a/b.txt".to_string()));
    assert_eq!(relative_key("/", "/etc/hosts"), Some("etc/hosts".to_string()));
    assert_eq!(relative_key("/", "/"), Some(String::new()));
    assert_eq!(relative_key("", "a/b"), None);
    assert_eq!(relative_key("", ""), Some(String::new()));
}

#[test]
fn relative_key_refuses_paths_outside_the_root() {
    assert_eq!(relative_key("/scan", "/other/a"), None);
    assert_eq!(relative_key("/scan", "/scanner"), None);
    assert_eq!(relative_key("/scan", "/sca"), None);
    assert_eq!(relative_key("/scan/a", "/scan"), None);
}

#[test]
fn relative_key_counts_characters_not_bytes() {
    assert_eq!(relative_key("/données", "/données/été.txt"), Some("été.txt".to_string()));
    assert_eq!(relative_key("/日本", "/日本/語/x"), Some("語/x".to_string()));
}

#[test]
fn parent_key_cuts_at_the_last_separator() {
    assert_eq!(parent_key(""), None);
    assert_eq!(parent_key("a"), Some(String::new()));
    assert_eq!(parent_key("a/b"), Some("a".to_string()));
    assert_eq!(parent_key("a/b/c.txt"), Some("a/b".to_string()));
    assert_eq!(parent_key("été/ü"), Some("été".to_string()));
}

#[test]
fn join_puts_one_separator_between() {
    assert_eq!(join_path("/scan", "a"), "/scan/a");
    assert_eq!(join_path("/", "etc"), "/etc");
    assert_eq!(join_path("", "a"), "a");
    assert_eq!(join_path("/scan/a", "b.txt"), "/scan/a/b.txt");
}

#[test]
fn joined_entries_have_their_directory_as_parent() {
    let root = "/scan";
    let dir = join_path(root, "a");
    let entry = join_path(&dir, "b");
    let dir_key = relative_key(root, &dir).unwrap();
    let entry_key = relative_key(root, &entry).unwrap();
    assert_eq!(parent_key(&entry_key), Some(dir_key.clone()));
    assert_eq!(parent_key(&dir_key), Some(String::new()));
}

#[test]
fn paths_are_ordered_by_character() {
    assert!(path_ordered("", ""));
    assert!(path_ordered("", "a"));
    assert!(!path_ordered("a", ""));
    assert!(path_ordered("a", "a"));
    assert!(path_ordered("a", "b"));
    assert!(!path_ordered("b", "a"));
    assert!(path_ordered("a", "ab"));
    assert!(!path_ordered("ab", "a"));
    assert!(path_ordered("B", "a"));
    assert!(path_ordered("/r/a.txt", "/r/a/b"));
    assert!(path_ordered("z", "é"));
}

#[test]
fn order_agrees_with_the_order_of_strings() {
    let samples = vec!["", "a", "ab", "b", "/x/y", "/x/z", "/x", "é", "日本", "a b", "a/b", "A"];
    for a in samples.iter() {
        for b in samples.iter() {
            assert_eq!(path_ordered(a, b), a <= b);
        }
    }
}

#[test]
fn file_names_are_not_empty_and_hold_no_separator() {
    assert!(is_file_name("a"));
    assert!(is_file_name("a.txt"));
    assert!(is_file_name(".."));
    assert!(is_file_name("été"));
    assert!(!is_file_name(""));
    assert!(!is_file_name("/"));
    assert!(!is_file_name("a/b"));
    assert!(!is_file_name("a/"));
}
