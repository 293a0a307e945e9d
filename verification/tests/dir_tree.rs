use peeko::dir_tree::DirectoryTree;

#[test]
fn test_add_path() {
    let mut tree = DirectoryTree::new();
    let path = "/usr/bin/ls";
    tree.add_path(path, false);
    let node = tree.find(path).unwrap();
    assert_eq!(node.pwd(true), path);
}

#[test]
fn find_root_by_slash_and_by_empty_path() {
    let mut tree = DirectoryTree::new();
    tree.add_path("etc/hosts", false);
    let by_slash = tree.find("/").unwrap();
    let by_empty = tree.find("").unwrap();
    assert_eq!(by_slash.name(), "/");
    assert_eq!(by_empty.name(), "/");
    assert_eq!(by_slash.pwd(true), "/");
    assert_eq!(by_empty.pwd(false), "");
    assert!(by_slash.is_dir());
    assert!(by_slash.parent().is_none());
}

#[test]
fn find_missing_component_is_none() {
    let mut tree = DirectoryTree::new();
    tree.add_path("usr/bin/ls", false);
    assert!(tree.find("usr/lib").is_none());
    assert!(tree.find("usr/bin/ls/more").is_none());
    assert!(tree.find("us").is_none());
}

#[test]
fn find_ignores_separators_at_the_ends() {
    let mut tree = DirectoryTree::new();
    tree.add_path("usr/bin/ls", false);
    let node = tree.find("//usr/bin/ls/").unwrap();
    assert_eq!(node.pwd(false), "usr/bin/ls");
    assert_eq!(node.name(), "ls");
    assert_eq!(tree.find("usr/bin/ls///").unwrap().name(), "ls");
    assert_eq!(tree.find("///").unwrap().name(), "/");
    assert_eq!(tree.find("//usr//").unwrap().name(), "usr");
}

#[test]
fn find_takes_an_empty_part_for_a_missing_one() {
    let mut tree = DirectoryTree::new();
    tree.add_path("a/b", false);
    tree.add_path("usr/bin/ls", false);
    assert!(tree.find("a/b").is_some());
    assert!(tree.find("a//b").is_none());
    assert!(tree.find("/a//b/").is_none());
    assert!(tree.find("usr///bin/ls").is_none());
    assert!(tree.find("usr/bin//ls").is_none());
    assert!(tree.find("//usr///bin/ls/").is_none());
}

#[test]
fn add_path_drops_empty_parts() {
    let mut tree = DirectoryTree::new();
    tree.add_path("a//b", false);
    assert_eq!(tree.node_count(), 3);
    assert_eq!(tree.find("a/b").unwrap().pwd(true), "/a/b");
}

#[test]
fn intermediate_nodes_are_directories() {
    let mut tree = DirectoryTree::new();
    tree.add_path("usr/bin/ls", false);
    assert!(tree.find("usr").unwrap().is_dir());
    assert!(tree.find("usr/bin").unwrap().is_dir());
    assert!(!tree.find("usr/bin/ls").unwrap().is_dir());
    assert_eq!(tree.node_count(), 4);
}

#[test]
fn add_path_keeps_existing_nodes() {
    let mut tree = DirectoryTree::new();
    tree.add_path("a/b", false);
    tree.add_path("a/b", true);
    assert!(!tree.find("a/b").unwrap().is_dir());
    tree.add_path("a/b/c", false);
    assert!(!tree.find("a/b").unwrap().is_dir());
    assert_eq!(tree.node_count(), 4);
}

#[test]
fn set_path_settles_the_flag() {
    let mut tree = DirectoryTree::new();
    tree.add_path("a/b/c", false);
    assert!(tree.find("a/b").unwrap().is_dir());
    tree.set_path("a/b", false);
    assert!(!tree.find("a/b").unwrap().is_dir());
    tree.set_path("", false);
    assert!(tree.find("/").unwrap().is_dir());
}

#[test]
fn children_come_in_name_order() {
    let mut tree = DirectoryTree::new();
    tree.add_path("d/zeta", false);
    tree.add_path("d/alpha", false);
    tree.add_path("d/mid", true);
    tree.add_path("d/Beta", false);
    tree.add_path("d/alp", false);
    let dir = tree.find("d").unwrap();
    let names: Vec<String> = dir.children().iter().map(|c| c.name().to_string()).collect();
    assert_eq!(names, vec!["Beta", "alp", "alpha", "mid", "zeta"]);
    let up = dir.children()[2].parent().unwrap();
    assert_eq!(up.pwd(false), "d");
}

#[test]
fn pwd_with_and_without_root() {
    let mut tree = DirectoryTree::new();
    tree.add_path("a/b/c", true);
    let node = tree.find("a/b/c").unwrap();
    assert_eq!(node.pwd(false), "a/b/c");
    assert_eq!(node.pwd(true), "/a/b/c");
    let top = tree.find("a").unwrap();
    assert_eq!(top.pwd(false), "a");
    assert_eq!(top.pwd(true), "/a");
}

#[test]
fn print_whole_tree() {
    let mut tree = DirectoryTree::new();
    tree.add_path("etc/hosts", false);
    tree.add_path("etc/ssl/certs", true);
    tree.add_path("bin", true);
    tree.add_path("zz", false);
    let text = tree.print(5);
    let expected = "/\n\
├── bin/\n\
├── etc/\n\
│   ├── hosts\n\
│   └── ssl/\n\
│       └── certs/\n\
└── zz\n";
    assert_eq!(text, expected);
}

#[test]
fn print_reaches_one_level_below_max_depth() {
    let mut tree = DirectoryTree::new();
    tree.add_path("a/b/c/d", false);
    assert_eq!(tree.print(0), "/\n└── a/\n");
    assert_eq!(tree.print(1), "/\n└── a/\n    └── b/\n");
    assert_eq!(tree.print(2), "/\n└── a/\n    └── b/\n        └── c/\n");
    assert_eq!(
        tree.print(3),
        "/\n└── a/\n    └── b/\n        └── c/\n            └── d\n"
    );
}

#[test]
fn print_from_a_node() {
    let mut tree = DirectoryTree::new();
    tree.add_path("usr/bin/ls", false);
    tree.add_path("usr/bin/cat", false);
    tree.add_path("usr/lib", true);
    let node = tree.find("usr").unwrap();
    let text = node.print(0, 3, true, "");
    assert_eq!(text, "usr\n├── bin/\n│   ├── cat\n│   └── ls\n└── lib/\n");
    let shifted = node.print(1, 3, false, "> ");
    assert_eq!(
        shifted,
        "> ├── usr/\n> │   ├── bin/\n> │   │   ├── cat\n> │   │   └── ls\n> │   └── lib/\n"
    );
}

#[test]
fn empty_path_adds_nothing() {
    let mut tree = DirectoryTree::new();
    tree.add_path("", false);
    tree.add_path("///", false);
    assert_eq!(tree.node_count(), 1);
    assert_eq!(tree.print(3), "/\n");
}
