use tree_mapper::{dir_children, dir_tree, file_extension, file_info, FileInfo, Listed, Tree, TreeError, TreeType};

#[test]
fn extension_after_last_dot() {
    assert_eq!(file_extension("a.txt"), "txt");
    assert_eq!(file_extension("archive.tar.gz"), "gz");
    assert_eq!(file_extension("b.bin"), "bin");
}

#[test]
fn names_without_extension() {
    assert_eq!(file_extension("Makefile"), "");
    assert_eq!(file_extension(".profile"), "");
    assert_eq!(file_extension("trailing."), "");
    assert_eq!(file_extension(""), "");
}

#[test]
fn file_entry_of_two_kb() {
    let f = file_info("a.txt", 2048, 1).unwrap();
    assert_eq!(f.path, "a.txt");
    assert_eq!(f.extension, "txt");
    assert_eq!(f.file_size_raw, 2048);
    assert_eq!(f.file_size_label, "2kb");
}

#[test]
fn file_entry_refuses_negative_precision() {
    assert!(matches!(file_info("a.txt", 2048, -3), Err(TreeError::InvalidArgument)));
}

#[test]
fn empty_directory_has_no_key() {
    let t = dir_tree(String::from("empty"), Vec::new());
    assert!(t.is_empty());
}

fn file_of(t: &TreeType) -> &FileInfo {
    match t {
        TreeType::File(f) => f,
        TreeType::Dir(_) => panic!("expected a file entry"),
    }
}

fn dir_of(t: &TreeType) -> &Tree {
    match t {
        TreeType::Dir(m) => m,
        TreeType::File(_) => panic!("expected a directory entry"),
    }
}

#[test]
fn directory_with_one_file() {
    let children = dir_children(vec![Listed::File(String::from("a.txt"), 2048)], 1).unwrap();
    let t = dir_tree(String::from("root"), children);
    assert_eq!(t.len(), 1);
    assert_eq!(t[0].0, "root");
    assert_eq!(t[0].1.len(), 1);
    let f = file_of(&t[0].1[0]);
    assert_eq!(f.path, "a.txt");
    assert_eq!(f.extension, "txt");
    assert_eq!(f.file_size_raw, 2048);
    assert_eq!(f.file_size_label, "2kb");
}

#[test]
fn nested_directory_with_one_file() {
    let sub_children = dir_children(vec![Listed::File(String::from("b.bin"), 10)], 1).unwrap();
    let sub = dir_tree(String::from("sub"), sub_children);
    let root_children = dir_children(vec![Listed::Dir(sub)], 1).unwrap();
    let root = dir_tree(String::from("root"), root_children);
    assert_eq!(root.len(), 1);
    assert_eq!(root[0].0, "root");
    assert_eq!(root[0].1.len(), 1);
    let m = dir_of(&root[0].1[0]);
    assert_eq!(m.len(), 1);
    assert_eq!(m[0].0, "sub");
    assert_eq!(m[0].1.len(), 1);
    let f = file_of(&m[0].1[0]);
    assert_eq!(f.path, "b.bin");
    assert_eq!(f.extension, "bin");
    assert_eq!(f.file_size_raw, 10);
    assert_eq!(f.file_size_label, "10b");
}

#[test]
fn empty_subdirectory_stays_as_an_empty_entry() {
    let sub = dir_tree(String::from("sub"), dir_children(Vec::new(), 1).unwrap());
    let root = dir_tree(String::from("root"), dir_children(vec![Listed::Dir(sub)], 1).unwrap());
    assert_eq!(root.len(), 1);
    assert_eq!(root[0].1.len(), 1);
    assert!(dir_of(&root[0].1[0]).is_empty());
}

#[test]
fn empty_listing_gives_no_key() {
    let children = dir_children(Vec::new(), 1).unwrap();
    assert!(children.is_empty());
    assert!(dir_tree(String::from("root"), children).is_empty());
}

#[test]
fn other_entries_are_skipped_and_order_is_kept() {
    let listed = vec![
        Listed::File(String::from("z.md"), 1536),
        Listed::Other,
        Listed::Dir(Vec::new()),
        Listed::File(String::from("a.rs"), 3),
        Listed::Other,
    ];
    let children = dir_children(listed, 1).unwrap();
    assert_eq!(children.len(), 3);
    let first = file_of(&children[0]);
    assert_eq!(first.path, "z.md");
    assert_eq!(first.file_size_label, "1.5kb");
    assert!(dir_of(&children[1]).is_empty());
    let last = file_of(&children[2]);
    assert_eq!(last.path, "a.rs");
    assert_eq!(last.extension, "rs");
    assert_eq!(last.file_size_label, "3b");
}

#[test]
fn only_other_entries_give_no_key() {
    let children = dir_children(vec![Listed::Other, Listed::Other], 0).unwrap();
    assert!(children.is_empty());
    assert!(dir_tree(String::from("root"), children).is_empty());
}

#[test]
fn negative_precision_fails_only_with_a_file() {
    let with_file = vec![Listed::Dir(Vec::new()), Listed::File(String::from("a.txt"), 5)];
    assert!(matches!(dir_children(with_file, -1), Err(TreeError::InvalidArgument)));
    let without_file = vec![Listed::Dir(Vec::new()), Listed::Other];
    assert_eq!(dir_children(without_file, -1).unwrap().len(), 1);
}
