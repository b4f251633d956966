use update_tracker::error::RepoError;
use update_tracker::route::{CouldFind, Error};
use update_tracker::sorted_map::SortedMap;
use update_tracker::url::Url;
use update_tracker::url_repo::{DirEntryKind, UrlRepo};

fn url(text: &str) -> Url {
    Url::parse(text).unwrap()
}

#[test]
fn paths_are_made_of_base_host_and_segments() {
    let repo = UrlRepo::new("update", "repo/base").unwrap();
    let at = url("http://www.example.org/test/doc");
    assert_eq!(repo.base(), "repo/base");
    assert_eq!(repo.repo_key(), "update");
    assert_eq!(repo.node_path(&at), "repo/base/www.example.org/test/doc");
    assert_eq!(
        repo.leaf_path(&at, "2021-03-01T10:00:00+00:00"),
        "repo/base/www.example.org/test/doc/<update>2021-03-01T10:00:00+00:00"
    );
    assert_eq!(repo.node_path(&url("http://www.example.org/test/doc/")), "repo/base/www.example.org/test/doc");
    assert_eq!(repo.node_path(&url("http://www.example.org")), "repo/base/www.example.org");
    assert!(matches!(UrlRepo::new("up>date", "base"), Err(RepoError::InvariantViolation)));
}

#[test]
fn entries_are_told_apart_by_their_names() {
    assert!(matches!(
        DirEntryKind::classify("<update>2021-03-01T10:00:00+00:00", false),
        DirEntryKind::Leaf(key, name) if key == "update" && name == "2021-03-01T10:00:00+00:00"
    ));
    assert!(matches!(
        DirEntryKind::classify("<docver>a>b", true),
        DirEntryKind::Leaf(key, name) if key == "docver" && name == "a>b"
    ));
    assert!(matches!(DirEntryKind::classify("<>", false), DirEntryKind::Leaf(key, name) if key.is_empty() && name.is_empty()));
    assert!(matches!(DirEntryKind::classify("test", true), DirEntryKind::Node(name) if name == "test"));
    assert!(matches!(DirEntryKind::classify("<open", true), DirEntryKind::Node(name) if name == "<open"));
    assert!(matches!(DirEntryKind::classify("test", false), DirEntryKind::Unknown));
    assert!(matches!(DirEntryKind::classify("a<b>c", false), DirEntryKind::Unknown));
    assert!(matches!(DirEntryKind::classify("", false), DirEntryKind::Unknown));
    let leaf = DirEntryKind::classify("<update>now", false);
    assert_eq!(leaf.as_leaf(), Some(("update", "now")));
    assert_eq!(leaf.as_node(), None);
    assert_eq!(leaf.leaf_of("update"), Some("now"));
    assert_eq!(leaf.leaf_of("docver"), None);
    assert_eq!(leaf.leaf_of(""), None);
    let node = DirEntryKind::classify("dir", true);
    assert_eq!(node.leaf_of("update"), None);
    assert_eq!(node.as_node(), Some("dir"));
    assert_eq!(node.as_leaf(), None);
}

#[test]
fn leaves_are_written_read_and_removed() {
    let mut repo = UrlRepo::new("update", "base").unwrap();
    let a = url("http://example.org/a");
    let b = url("http://example.org/a/b");
    assert!(matches!(repo.read_leaves_for_url(&a), Err(RepoError::NotFound)));
    assert!(!repo.has_node_for(&a));
    assert_eq!(repo.create_leaf(&a, "two", vec![2]), Ok(()));
    assert_eq!(repo.create_leaf(&a, "one", vec![1]), Ok(()));
    assert_eq!(repo.create_leaf(&b, "three", vec![3, 3, 3]), Ok(()));
    assert_eq!(repo.create_leaf(&a, "one", vec![9]), Err(RepoError::AlreadyExists));
    assert!(repo.has_node_for(&a));
    assert!(repo.has_leaf(&a, "one"));
    assert!(!repo.has_leaf(&b, "one"));
    assert_eq!(repo.read_leaf(&a, "one"), Ok(vec![1]));
    assert_eq!(repo.read_leaf(&a, "three"), Err(RepoError::NotFound));
    assert_eq!(repo.read_leaf(&url("http://example.org/c"), "one"), Err(RepoError::NotFound));

    let names: Vec<String> = repo.read_leaves_for_url(&a).unwrap().into_iter().map(|l| l.name).collect();
    assert_eq!(names, ["one", "two"]);
    let sorted: Vec<(String, Vec<u8>)> = repo
        .read_leaves_sorted_for_url(&a)
        .unwrap()
        .into_iter()
        .map(|l| (l.name, l.content))
        .collect();
    assert_eq!(sorted, [("one".to_string(), vec![1]), ("two".to_string(), vec![2])]);

    let all: Vec<(String, String)> = repo
        .list_all(&url("http://example.org/"))
        .into_iter()
        .map(|l| (l.url.as_str().to_string(), l.name))
        .collect();
    assert_eq!(
        all,
        [
            ("http://example.org/a".to_string(), "one".to_string()),
            ("http://example.org/a".to_string(), "two".to_string()),
            ("http://example.org/a/b".to_string(), "three".to_string())
        ]
    );
    let nodes: Vec<String> = repo.node_urls(&url("http://example.org/a/")).iter().map(|u| u.as_str().to_string()).collect();
    assert_eq!(nodes, ["http://example.org/a", "http://example.org/a/b"]);
    assert!(repo.list_all(&url("http://other.org/")).is_empty());

    assert_eq!(repo.remove_leaf(&a, "one"), Ok(()));
    assert_eq!(repo.remove_leaf(&a, "one"), Err(RepoError::NotFound));
    assert_eq!(repo.remove_leaf(&a, "two"), Ok(()));
    assert_eq!(repo.read_leaves_for_url(&a).map(|leaves| leaves.len()), Ok(0));
    assert!(repo.has_node_for(&a));
    assert_eq!(repo.list_all(&url("http://example.org/")).len(), 1);
}

#[test]
fn a_sorted_map_keeps_its_keys_in_order() {
    let mut map: SortedMap<String, u8> = SortedMap::new();
    assert_eq!(map.insert("m".to_string(), 1), None);
    assert_eq!(map.insert("a".to_string(), 2), None);
    assert_eq!(map.insert("z".to_string(), 3), None);
    assert_eq!(map.insert("m".to_string(), 4), Some(1));
    assert_eq!(map.len(), 3);
    let keys: Vec<&str> = (0..map.len()).map(|i| map.entry(i).key.as_str()).collect();
    assert_eq!(keys, ["a", "m", "z"]);
    assert_eq!(map.get(&"m".to_string()), Some(&4));
    assert_eq!(map.get(&"n".to_string()), None);
    assert_eq!(map.find(&"z".to_string()), Some(2));
    assert_eq!(map.lower_bound(&"b".to_string()), 1);
    assert_eq!(map.remove(&"a".to_string()), Some(2));
    assert_eq!(map.remove(&"a".to_string()), None);
    assert_eq!(map.len(), 2);
}

#[test]
fn what_is_not_found_is_named() {
    let found: Result<u8, RepoError> = Ok(1);
    assert!(matches!(found.could_find("Thing"), Ok(1)));
    let missing: Result<u8, RepoError> = Err(RepoError::NotFound);
    assert!(matches!(missing.could_find("Thing"), Err(Error::NotFound("Thing"))));
    let broken: Result<u8, RepoError> = Err(RepoError::Io);
    assert!(matches!(broken.could_find("Thing"), Err(Error::InternalServer)));
}
