use lsr::filetree::{Directory, File, FileKind, FileTree, Metadata};
use lsr::processing::{prepare_name_for_compare, SortError};
use lsr::Args;

fn plain_args() -> Args {
    Args {
        all: false,
        recursive: false,
        long: false,
        size: false,
        human_readable: false,
        one_file_per_line: false,
    }
}

fn meta(size: u64) -> Metadata {
    Metadata {
        size,
        nlink: 1,
        mode: 0o644,
        blocks: 0,
        kind: FileKind::Regular,
        owner: String::from("alice"),
        group: String::from("staff"),
        modified: None,
    }
}

fn dir_with_files(names: &[&str]) -> FileTree {
    let mut dir = Directory::new(String::from(""), meta(0));
    for n in names {
        dir.add_node(FileTree::FileNode(File::new(String::from(*n), meta(1))));
    }
    FileTree::DirNode(dir)
}

fn entry_names(tree: &FileTree) -> Vec<String> {
    match tree {
        FileTree::DirNode(d) => d
            .entries()
            .iter()
            .map(|e| e.unwrap_as_file().name().clone())
            .collect(),
        _ => panic!("not a directory"),
    }
}

#[test]
fn comparator_keys() {
    assert_eq!(prepare_name_for_compare(".hidden"), "hidden");
    assert_eq!(prepare_name_for_compare("Hidden"), "hidden");
    assert_eq!(prepare_name_for_compare("2file"), "file");
    assert_eq!(prepare_name_for_compare("_cherry"), "cherry");
    assert_eq!(prepare_name_for_compare("afile"), "afile");
    // A name with no ASCII lowercase letter keeps its whole lowercased form.
    assert_eq!(prepare_name_for_compare("123"), "123");
}

#[test]
fn sort_table() {
    let mut tree = dir_with_files(&["Banana", "apple", "_cherry"]);
    tree.sort_by(&plain_args()).unwrap();
    assert_eq!(entry_names(&tree), vec!["apple", "Banana", "_cherry"]);
}

#[test]
fn sort_idempotent() {
    let mut tree = dir_with_files(&["zeta", "Alpha", ".m", "10", "beta"]);
    tree.sort_by(&plain_args()).unwrap();
    let once = entry_names(&tree);
    tree.sort_by(&plain_args()).unwrap();
    let twice = entry_names(&tree);
    assert_eq!(once, twice);
}

#[test]
fn sort_stable_for_equal_keys() {
    // ".same" and "Same" both reduce to the key "same" and must keep their
    // relative order; "Apple" and "zoo" surround them.
    let mut tree = dir_with_files(&["zoo", ".same", "Same", "Apple"]);
    tree.sort_by(&plain_args()).unwrap();
    assert_eq!(entry_names(&tree), vec!["Apple", ".same", "Same", "zoo"]);
}

#[test]
fn sort_refuses_non_directory() {
    let mut tree = FileTree::FileNode(File::new(String::from("a"), meta(1)));
    assert_eq!(tree.sort_by(&plain_args()), Err(SortError::NotADirectory));
}

#[test]
fn sort_recurses_into_subdirectories() {
    let mut sub = Directory::new(String::from("sub"), meta(0));
    sub.add_node(FileTree::FileNode(File::new(String::from("b"), meta(1))));
    sub.add_node(FileTree::FileNode(File::new(String::from("a"), meta(1))));
    let mut root = Directory::new(String::from(""), meta(0));
    root.add_node(FileTree::DirNode(sub));
    let mut tree = FileTree::DirNode(root);
    tree.sort_by(&plain_args()).unwrap();
    match &tree {
        FileTree::DirNode(d) => match &d.entries()[0] {
            FileTree::DirNode(s) => {
                let names: Vec<String> = s
                    .entries()
                    .iter()
                    .map(|e| e.unwrap_as_file().name().clone())
                    .collect();
                assert_eq!(names, vec!["a", "b"]);
            }
            _ => panic!("expected the subdirectory"),
        },
        _ => panic!("expected a directory"),
    }
}

#[test]
fn mut_entries_exposes_children() {
    let mut dir = Directory::new(String::from(""), meta(0));
    dir.add_node(FileTree::FileNode(File::new(String::from("x"), meta(1))));
    let entries = dir.mut_entries();
    let moved = entries.remove(0);
    assert_eq!(moved.unwrap_as_file().name().as_str(), "x");
    assert!(dir.entries().is_empty());
}
