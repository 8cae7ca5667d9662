use squashfs_image::node::{FilesystemHeader, Node, SquashfsPath};
use squashfs_image::path::{are_first_names, same_names, UnixPath};
use squashfs_image::tree::TreeNode;

fn path(s: &str) -> UnixPath {
    UnixPath::new(s.as_bytes().to_vec())
}

fn names(list: &[&str]) -> Vec<Vec<u8>> {
    list.iter().map(|name| name.as_bytes().to_vec()).collect()
}

#[test]
fn location_leaves_out_what_leads_nowhere() {
    for (s, list) in [
        ("", &[][..]),
        ("/", &[]),
        (".", &[]),
        ("a", &["a"]),
        ("/a", &["a"]),
        ("//a///b/", &["a", "b"]),
        ("./a/./b/.", &["a", "b"]),
        ("/a/../b", &["a", "..", "b"]),
        ("/a/.b", &["a", ".b"]),
    ] {
        assert_eq!(path(s).location(), names(list));
    }
}

#[test]
fn paths_are_compared_part_by_part() {
    let agrees = |a: &str, b: &str| {
        let same = path(a).same_path(&path(b));
        assert_eq!(same, std::path::Path::new(a) == std::path::Path::new(b));
        assert_eq!(path(a) == path(b), same);
        same
    };
    assert!(agrees("/a/b", "//a/./b/"));
    assert!(agrees("a/b", "a//b/."));
    assert!(agrees("./a", "./a/"));
    assert!(agrees("", ""));
    assert!(!agrees("/a", "a"));
    assert!(!agrees("./a", "a"));
    assert!(!agrees(".", ""));
    assert!(!agrees("/a/b", "/a"));
    assert!(!agrees("/a/../a", "/a"));
}

#[test]
fn file_name_is_the_last_part() {
    for s in ["", "/", "a", "/a/b", "/a/b/", "/a/b/.", "/a/..", "..", ".", "a/.."] {
        let expected = std::path::Path::new(s).file_name().map(|n| n.to_str().unwrap().as_bytes().to_vec());
        assert_eq!(path(s).file_name(), expected);
    }
}

#[test]
fn absolute_paths_start_at_the_root() {
    assert!(path("/").is_absolute());
    assert!(path("/a").is_absolute());
    assert!(!path("").is_absolute());
    assert!(!path("a/").is_absolute());
    let list = names(&["a", "b", "c"]);
    assert_eq!(UnixPath::absolute(&list, 2).bytes, b"/a/b".to_vec());
    assert_eq!(UnixPath::absolute(&list, 0).bytes, b"".to_vec());
    assert_eq!(UnixPath::absolute(&list, 3).location(), list);
}

#[test]
fn first_names_are_compared() {
    let list = names(&["a", "b", "c"]);
    assert!(same_names(&list, &names(&["a", "b", "c"])));
    assert!(!same_names(&list, &names(&["a", "b"])));
    assert!(!same_names(&list, &names(&["a", "b", "d"])));
    assert!(are_first_names(&names(&["a", "b"]), &list, 2));
    assert!(!are_first_names(&names(&["a", "b"]), &list, 3));
    assert!(!are_first_names(&names(&["a", "x"]), &list, 2));
    assert!(are_first_names(&names(&[]), &list, 0));
}

#[test]
fn tree_is_ordered_by_name() {
    let nodes: Vec<Node> = ["/b/x", "a", "/b", "/c/d/e", "//a/"]
        .iter()
        .enumerate()
        .map(|(i, s)| {
            let header = FilesystemHeader { permissions: i as u16, uid: 0, gid: 0, mtime: 0 };
            Node::Path(SquashfsPath { header, path: path(s) })
        })
        .collect();
    let tree = TreeNode::from_nodes(&nodes);
    assert_eq!(tree.name, b"/".to_vec());
    assert!(tree.node.is_none());
    let top: Vec<Vec<u8>> = tree.children.iter().map(|c| c.name.clone()).collect();
    assert_eq!(top, names(&["a", "b", "c"]));
    // the last node at a place counts
    assert!(tree.children[0].node == Some(&nodes[4]));
    assert!(tree.children[1].node == Some(&nodes[2]));
    assert!(tree.children[1].children[0].node == Some(&nodes[0]));
    // a place on the way has no node
    assert!(tree.children[2].node.is_none());
    assert!(tree.children[2].children[0].children[0].node == Some(&nodes[3]));
}

#[test]
fn nodes_are_compared_by_the_parts_of_their_paths() {
    let header = FilesystemHeader::default();
    let dir = |s: &str| SquashfsPath { header, path: path(s) };
    assert!(dir("/a//b") == dir("/a/b/"));
    assert!(Node::Path(dir("/a/./b")) == Node::Path(dir("/a/b")));
    assert!(dir("/a") != dir("a"));
    let other = FilesystemHeader { mtime: 1, ..header };
    assert!(dir("/a") != SquashfsPath { header: other, path: path("/a") });
}

#[test]
fn clone_of_a_path_is_spelled_alike() {
    assert_eq!(path("//a/./b/").clone().bytes, b"//a/./b/".to_vec());
}
