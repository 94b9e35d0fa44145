use path_tree::node::{Node, NodeData, NodeType};
use path_tree::parse::PathError;
use path_tree::tree::Tree;

fn node(line: &str) -> Node {
    Node::from_line(line).expect("a valid path line")
}

fn tree_of(lines: &[&str]) -> (Tree, Vec<bool>) {
    let mut tree = Tree::new();
    let mut outcomes = Vec::new();
    for line in lines {
        outcomes.push(tree.insert(node(line)));
    }
    (tree, outcomes)
}

fn shape(n: &Node) -> String {
    let mut s = format!("{:?}:{}:{}:{}[", n.node_type, n.depth, n.name, n.path);
    for c in &n.children {
        s.push_str(&shape(c));
    }
    s.push(']');
    s
}

#[test]
fn new_root_fields() {
    let root = Node::new_root();
    assert_eq!(root.depth(), 0);
    assert_eq!(root.path(), "/");
    assert_eq!(root.name(), "root");
    assert_eq!(root.node_type, NodeType::Directory());
    assert_eq!(root.data.default_path, "/");
    assert_eq!(root.data.length, 1);
    assert!(root.children.is_empty());
}

#[test]
fn new_file_and_directory_fields() {
    let data = NodeData { default_path: "./src/main.rs".to_string(), length: 13 };
    let f = Node::new_file(data.clone(), 2, "src/main.rs".to_string(), "main.rs".to_string());
    assert_eq!(f.node_type, NodeType::File());
    assert_eq!(f.depth(), 2);
    assert_eq!(f.path(), "src/main.rs");
    assert_eq!(f.name(), "main.rs");
    assert_eq!(f.data.default_path, "./src/main.rs");
    assert_eq!(f.data.length, 13);
    let d = Node::new_directory(data, 1, "src".to_string(), "src".to_string());
    assert_eq!(d.node_type, NodeType::Directory());
    assert_eq!(d.depth(), 1);
    assert!(d.children.is_empty());
}

#[test]
fn from_line_plain_file() {
    let n = node("src/node.rs");
    assert_eq!(n.depth, 2);
    assert_eq!(n.name, "node.rs");
    assert_eq!(n.path, "src/node.rs");
    assert_eq!(n.node_type, NodeType::File());
    assert_eq!(n.data.default_path, "src/node.rs");
    assert_eq!(n.data.length, 11);
    assert!(n.children.is_empty());
}

#[test]
fn from_line_trailing_slash_is_one_directory() {
    let n = node("a/");
    assert_eq!(n.depth, 1);
    assert_eq!(n.name, "a");
    assert_eq!(n.path, "a");
    assert_eq!(n.node_type, NodeType::Directory());
    assert_eq!(n.data.default_path, "a/");
    assert_eq!(n.data.length, 2);
}

#[test]
fn from_line_leading_dot_is_dropped() {
    let n = node("./a/b.txt");
    assert_eq!(n.depth, 2);
    assert_eq!(n.name, "b.txt");
    assert_eq!(n.path, "a/b.txt");
    assert_eq!(n.data.default_path, "./a/b.txt");
    assert_eq!(n.data.length, 9);
}

#[test]
fn from_line_depth_counts_components() {
    assert_eq!(node("a").depth, 1);
    assert_eq!(node("a/b/c/d.rs").depth, 4);
    assert_eq!(node("./x/y/").depth, 2);
    let inner_empty = node("a//b");
    assert_eq!(inner_empty.depth, 3);
    assert_eq!(inner_empty.path, "a//b");
}

#[test]
fn from_line_dotted_directory_is_a_file() {
    let n = node("lib.d");
    assert_eq!(n.node_type, NodeType::File());
    let m = node("Makefile");
    assert_eq!(m.node_type, NodeType::Directory());
}

#[test]
fn from_line_length_counts_characters() {
    let n = node("é/ü.rs");
    assert_eq!(n.data.length, 6);
    assert_eq!(n.name, "ü.rs");
}

#[test]
fn from_line_malformed() {
    for line in ["", "/", ".", "./", "a//"] {
        assert!(matches!(Node::from_line(line), Err(PathError::MalformedPath)), "{:?}", line);
    }
}

#[test]
fn insert_creates_root() {
    let mut tree = Tree::new();
    assert!(tree.root.is_none());
    assert!(tree.insert(node("src")));
    let root = tree.root.as_ref().unwrap();
    assert_eq!(root.name, "root");
    assert_eq!(root.depth, 0);
    assert_eq!(root.children.len(), 1);
    assert_eq!(root.children[0].name, "src");
}

#[test]
fn scenario_src_files_and_cargo_toml() {
    let (tree, outcomes) = tree_of(&["src", "src/node.rs", "src/main.rs", "Cargo.toml"]);
    assert_eq!(outcomes, vec![true, true, true, true]);
    let main = tree.find_by_name("main.rs".to_string()).unwrap();
    assert_eq!(main.node_type, NodeType::File());
    assert_eq!(main.path, "src/main.rs");
    assert_eq!(main.depth, 2);
    let src = tree.find_by_name("src".to_string()).unwrap();
    assert_eq!(src.node_type, NodeType::Directory());
    assert_eq!(src.children.len(), 2);
    assert_eq!(src.children[0].name, "node.rs");
    assert_eq!(src.children[1].name, "main.rs");
    assert!(tree.find_by_name("missing".to_string()).is_none());
}

#[test]
fn scenario_without_parent_directory_drops_children() {
    let (tree, outcomes) = tree_of(&["src/node.rs", "src/main.rs", "Cargo.toml"]);
    assert_eq!(outcomes, vec![false, false, true]);
    assert!(tree.find_by_name("main.rs".to_string()).is_none());
    assert!(tree.find_by_name("Cargo.toml".to_string()).is_some());
}

#[test]
fn orphan_is_reported_not_attached() {
    let mut tree = Tree::new();
    assert!(!tree.insert(node("a/b/c.txt")));
    let root = tree.root.as_ref().unwrap();
    assert!(root.children.is_empty());
    assert!(tree.find_by_name("c.txt".to_string()).is_none());
}

#[test]
fn ancestors_first_then_found_by_name() {
    let (tree, outcomes) = tree_of(&["a", "a/b", "a/b/c", "a/b/c/d.txt"]);
    assert!(outcomes.iter().all(|x| *x));
    let d = tree.find_by_name("d.txt".to_string()).unwrap();
    assert_eq!(d.path, "a/b/c/d.txt");
    assert_eq!(d.depth, 4);
}

#[test]
fn same_path_twice_gives_two_siblings() {
    let (tree, outcomes) = tree_of(&["a", "a/x.rs", "a/x.rs"]);
    assert_eq!(outcomes, vec![true, true, true]);
    let a = tree.find_by_name("a".to_string()).unwrap();
    assert_eq!(a.children.len(), 2);
    assert_eq!(a.children[0].name, "x.rs");
    assert_eq!(a.children[1].name, "x.rs");
}

#[test]
fn dot_prefix_gives_same_tree_shape() {
    let (with_dot, _) = tree_of(&["./a", "./a/b.txt"]);
    let (plain, _) = tree_of(&["a", "a/b.txt"]);
    assert_eq!(shape(with_dot.root.as_ref().unwrap()), shape(plain.root.as_ref().unwrap()));
}

#[test]
fn trailing_slash_inserts_directory_at_depth_one() {
    let (tree, outcomes) = tree_of(&["a/", "a/b.txt"]);
    assert_eq!(outcomes, vec![true, true]);
    let a = tree.find_by_name("a".to_string()).unwrap();
    assert_eq!(a.depth, 1);
    assert_eq!(a.node_type, NodeType::Directory());
    assert_eq!(a.children.len(), 1);
}

#[test]
fn descent_takes_first_child_with_the_name() {
    let (tree, outcomes) = tree_of(&["a", "a", "a/b.txt"]);
    assert_eq!(outcomes, vec![true, true, true]);
    let root = tree.root.as_ref().unwrap();
    assert_eq!(root.children[0].children.len(), 1);
    assert_eq!(root.children[1].children.len(), 0);
}

#[test]
fn find_by_name_is_pre_order() {
    let (tree, _) = tree_of(&["a", "a/x", "b", "x"]);
    let x = tree.find_by_name("x".to_string()).unwrap();
    assert_eq!(x.path, "a/x");
    let root = tree.find_by_name("root".to_string()).unwrap();
    assert_eq!(root.depth, 0);
    assert_eq!(root.children.len(), 3);
}

#[test]
fn find_on_empty_tree() {
    let tree = Tree::new();
    assert!(tree.find_by_name("root".to_string()).is_none());
    assert!(tree.find_by_path("/".to_string()).is_none());
    assert!(tree.find_by_depth(0).is_none());
}

#[test]
fn find_by_path_matches_whole_path() {
    let (tree, _) = tree_of(&["a", "a/b", "b", "a/b/c.rs"]);
    let b = tree.find_by_path("b".to_string()).unwrap();
    assert_eq!(b.depth, 1);
    assert_eq!(b.name, "b");
    let ab = tree.find_by_path("a/b".to_string()).unwrap();
    assert_eq!(ab.depth, 2);
    assert_eq!(ab.children.len(), 1);
    assert!(tree.find_by_path("c.rs".to_string()).is_none());
    assert_eq!(tree.find_by_path("/".to_string()).unwrap().name, "root");
}

#[test]
fn find_by_depth_is_first_in_pre_order() {
    let (tree, _) = tree_of(&["a", "b", "b/c", "a/d"]);
    assert_eq!(tree.find_by_depth(0).unwrap().name, "root");
    assert_eq!(tree.find_by_depth(1).unwrap().name, "a");
    assert_eq!(tree.find_by_depth(2).unwrap().path, "a/d");
    assert!(tree.find_by_depth(3).is_none());
}

#[test]
fn found_node_is_an_independent_copy() {
    let (mut tree, _) = tree_of(&["a", "a/b.rs"]);
    let a = tree.find_by_name("a".to_string()).unwrap();
    assert!(tree.insert(node("a/c.rs")));
    assert_eq!(a.children.len(), 1);
    assert_eq!(tree.find_by_name("a".to_string()).unwrap().children.len(), 2);
}

#[test]
fn clone_copies_whole_subtree() {
    let (tree, _) = tree_of(&["a", "a/b", "a/b/c.rs"]);
    let root = tree.root.as_ref().unwrap();
    let copy = root.clone();
    assert_eq!(shape(&copy), shape(root));
    assert_eq!(copy.children[0].children[0].children[0].data.default_path, "a/b/c.rs");
}

#[test]
fn node_deeper_than_path_is_not_attached() {
    let mut tree = Tree::new();
    let data = NodeData { default_path: "a".to_string(), length: 1 };
    assert!(tree.insert(Node::new_directory(data.clone(), 1, "a".to_string(), "a".to_string())));
    assert!(!tree.insert(Node::new_file(data, 5, "a".to_string(), "x".to_string())));
    assert_eq!(tree.root.as_ref().unwrap().children[0].children.len(), 0);
}

#[test]
fn display_lines_of_empty_tree() {
    assert_eq!(Tree::new().display_lines(), vec!["No root node.".to_string()]);
}

#[test]
fn display_lines_pre_order() {
    let (tree, _) = tree_of(&["src", "src/main.rs", "Cargo.toml"]);
    let expected = vec![
        "Directory: root",
        " Children: 2",
        " Path: /",
        " Depth: 0",
        "  Directory: src",
        "   Children: 1",
        "   Path: src",
        "   Depth: 1",
        "    File: main.rs",
        "     Path: src/main.rs",
        "     Depth: 2",
        "  File: Cargo.toml",
        "   Path: Cargo.toml",
        "   Depth: 1",
    ];
    assert_eq!(tree.display_lines(), expected);
}

#[test]
fn display_lines_repeat_identically() {
    let (tree, _) = tree_of(&["a", "a/b", "a/b/c.txt", "d.md"]);
    let first = tree.display_lines();
    let second = tree.display_lines();
    assert_eq!(first, second);
    assert_eq!(first.len(), 4 + 4 + 4 + 3 + 3);
}

#[test]
fn display_lines_count_with_two_digits() {
    let mut lines = vec!["d".to_string()];
    for k in 0..12 {
        lines.push(format!("d/f{}.rs", k));
    }
    let mut tree = Tree::new();
    for line in &lines {
        assert!(tree.insert(node(line)));
    }
    let d = tree.find_by_name("d".to_string()).unwrap();
    let out = d.display_lines();
    assert_eq!(out[0], "  Directory: d");
    assert_eq!(out[1], "   Children: 12");
    assert_eq!(out[3], "   Depth: 1");
    assert_eq!(out[4], "    File: f0.rs");
    assert_eq!(out.len(), 4 + 12 * 3);
}

#[test]
fn display_lines_skip_children_of_a_file() {
    let data = NodeData { default_path: "x.rs".to_string(), length: 4 };
    let mut f = Node::new_file(data.clone(), 1, "x.rs".to_string(), "x.rs".to_string());
    f.children.push(Node::new_file(data, 2, "x.rs/y".to_string(), "y".to_string()));
    assert_eq!(f.display_lines(), vec!["  File: x.rs", "   Path: x.rs", "   Depth: 1"]);
}
