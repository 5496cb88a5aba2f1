use rust_ssh::filesys::{create_tree, FileTree, Node, NodeType};

fn child(tree: &FileTree, at: usize, name: &str) -> usize {
    Node::cd(tree, at, name).unwrap()
}

#[test]
fn ls_at_root_lists_the_directories() {
    let tree = create_tree();
    assert_eq!(Node::ls(&tree, 0), vec!["dir1", "dir2", "dir3"]);
}

#[test]
fn cd_then_pwd() {
    let tree = create_tree();
    let d1 = child(&tree, 0, "dir1");
    assert_eq!(Node::pwd(&tree, d1), "/dir1");
    assert_eq!(Node::ls(&tree, d1), vec!["file1.txt", "file2.txt"]);
}

#[test]
fn cd_up_returns_to_root() {
    let tree = create_tree();
    let d1 = child(&tree, 0, "dir1");
    let up = Node::cd(&tree, d1, "..").unwrap();
    assert_eq!(up, 0);
    assert_eq!(Node::pwd(&tree, up), "/");
}

#[test]
fn cd_fails_on_missing_names_files_and_root_parent() {
    let tree = create_tree();
    assert_eq!(Node::cd(&tree, 0, "nofile"), None);
    assert_eq!(Node::cd(&tree, 0, ".."), None);
    assert_eq!(Node::cd(&tree, 0, "DIR1"), None);
    let d1 = child(&tree, 0, "dir1");
    assert_eq!(Node::cd(&tree, d1, "file1.txt"), None);
}

#[test]
fn ls_of_a_file_is_empty() {
    let tree = create_tree();
    let d2 = child(&tree, 0, "dir2");
    let names = Node::ls(&tree, d2);
    assert_eq!(names, vec!["file3.txt"]);
    let file = tree.nodes[d2].children[0];
    assert_eq!(tree.nodes[file].node_type, NodeType::File);
    assert!(Node::ls(&tree, file).is_empty());
}

#[test]
fn tab_completion_by_prefix() {
    let tree = create_tree();
    assert_eq!(Node::tab_complete(&tree, 0, "di"), vec!["dir1", "dir2", "dir3"]);
    assert!(Node::tab_complete(&tree, 0, "file").is_empty());
    assert_eq!(Node::tab_complete(&tree, 0, "dir2"), vec!["dir2"]);
    assert_eq!(Node::tab_complete(&tree, 0, ""), vec!["dir1", "dir2", "dir3"]);
}

#[test]
fn tab_completion_of_the_last_word() {
    let tree = create_tree();
    assert_eq!(Node::tab_complete_arg(&tree, 0, "cd di"), vec!["dir1", "dir2", "dir3"]);
    assert_eq!(Node::tab_complete_arg(&tree, 0, "cd dir3"), vec!["dir3"]);
    assert_eq!(Node::tab_complete_arg(&tree, 0, "cd "), vec!["dir1", "dir2", "dir3"]);
    let d1 = child(&tree, 0, "dir1");
    assert_eq!(Node::tab_complete_arg(&tree, d1, "cat file2"), vec!["file2.txt"]);
    assert!(Node::tab_complete_arg(&tree, d1, "cat x").is_empty());
}

#[test]
fn building_a_tree() {
    let mut tree = FileTree::new("top".to_string());
    let a = Node::add_child(&mut tree, 0, Node::new_directory("a".to_string()));
    let b = Node::add_child(&mut tree, a, Node::new_directory("b".to_string()));
    let f = Node::add_child(&mut tree, b, Node::new_file("f".to_string()));
    assert_eq!((a, b, f), (1, 2, 3));
    assert_eq!(tree.nodes[f].parent, Some(b));
    assert_eq!(Node::pwd(&tree, f), "/a/b/f");
    assert_eq!(Node::pwd(&tree, 0), "/");
    assert_eq!(Node::cd(&tree, b, ".."), Some(a));
}

#[test]
fn the_fixed_tree_has_its_shape() {
    let tree = create_tree();
    assert_eq!(tree.nodes.len(), 8);
    assert_eq!(tree.nodes[0].children, vec![1, 2, 3]);
    assert_eq!(tree.nodes[1].children, vec![4, 5]);
    assert_eq!(tree.nodes[2].children, vec![6]);
    assert_eq!(tree.nodes[3].children, vec![7]);
    for i in 0..4 {
        assert_eq!(tree.nodes[i].node_type, NodeType::Directory);
    }
    for i in 4..8 {
        assert_eq!(tree.nodes[i].node_type, NodeType::File);
        assert!(tree.nodes[i].children.is_empty());
        let p = tree.nodes[i].parent.unwrap();
        assert!(tree.nodes[p].children.contains(&i));
    }
    assert_eq!(Node::ls(&tree, 3), vec!["file4.txt"]);
}
