use lsr::filetree::{
    build_tree, relative_name, File, FileKind, FileTree, Metadata, RawDir, RawFile, RawNode,
};
use lsr::Args;

fn args_with(all: bool, recursive: bool) -> Args {
    Args {
        all,
        recursive,
        long: false,
        size: false,
        human_readable: false,
        one_file_per_line: false,
    }
}

fn meta(size: u64, kind: FileKind) -> Metadata {
    Metadata {
        size,
        nlink: 1,
        mode: 0o644,
        blocks: 0,
        kind,
        owner: String::from("alice"),
        group: String::from("staff"),
        modified: None,
    }
}

fn raw_file(name: &str, size: u64) -> RawNode {
    RawNode::FileNode(RawFile {
        name: String::from(name),
        metadata: meta(size, FileKind::Regular),
    })
}

/// Root of size 100 holding `a.txt` (10 bytes) and `sub` (size 50) with one
/// 5-byte file inside.
fn sample_raw() -> RawDir {
    RawDir {
        name: String::from(""),
        metadata: meta(100, FileKind::Directory),
        children: vec![
            RawNode::DirNode(RawDir {
                name: String::from("sub"),
                metadata: meta(50, FileKind::Directory),
                children: vec![raw_file("inner.txt", 5)],
            }),
            raw_file("a.txt", 10),
        ],
    }
}

fn as_dir(tree: &FileTree) -> &lsr::filetree::Directory {
    match tree {
        FileTree::DirNode(d) => d,
        _ => panic!("expected a directory"),
    }
}

#[test]
fn count_aggregates_descendant_files() {
    let recursive = build_tree(sample_raw(), &args_with(false, true)).unwrap();
    let root = as_dir(&recursive);
    assert_eq!(root.count(), 2);
    match &root.entries()[0] {
        FileTree::DirNode(sub) => assert_eq!(sub.count(), 1),
        _ => panic!("expected the subdirectory first"),
    }

    // A non-recursive traversal never descends: the subdirectory stays
    // shallow and contributes no files.
    let flat = build_tree(sample_raw(), &args_with(false, false)).unwrap();
    assert_eq!(as_dir(&flat).count(), 1);
}

#[test]
fn total_size_aggregates_subtree_sizes() {
    // A file contributes its size, a subdirectory its own aggregated
    // total_size, bottom-up from the directory's own metadata size.
    let recursive = build_tree(sample_raw(), &args_with(false, true)).unwrap();
    let root = as_dir(&recursive);
    match &root.entries()[0] {
        FileTree::DirNode(sub) => assert_eq!(sub.total_size(), 55),
        _ => panic!("expected the subdirectory first"),
    }
    assert_eq!(root.total_size(), 100 + 55 + 10);

    // Shallow subdirectories contribute their own metadata size only.
    let flat = build_tree(sample_raw(), &args_with(false, false)).unwrap();
    assert_eq!(as_dir(&flat).total_size(), 100 + 50 + 10);
}

#[test]
fn hidden_entries_are_filtered() {
    let raw = RawDir {
        name: String::from(""),
        metadata: meta(0, FileKind::Directory),
        children: vec![raw_file(".env", 3), raw_file("b.txt", 4)],
    };
    let without = build_tree(
        RawDir {
            name: raw.name.clone(),
            metadata: meta(0, FileKind::Directory),
            children: vec![raw_file(".env", 3), raw_file("b.txt", 4)],
        },
        &args_with(false, false),
    )
    .unwrap();
    let d = as_dir(&without);
    assert_eq!(d.entries().len(), 1);
    assert_eq!(d.entries()[0].unwrap_as_file().name().as_str(), "b.txt");
    assert_eq!(d.count(), 1);
    assert_eq!(d.total_size(), 4);

    let mut with = build_tree(raw, &args_with(true, false)).unwrap();
    assert_eq!(as_dir(&with).entries().len(), 2);
    assert_eq!(as_dir(&with).count(), 2);
    // Once included, a hidden entry sorts with the rest: ".env" has key
    // "env", before "b.txt"'s key... "b.txt" < "env", so b.txt comes first.
    with.sort_by(&args_with(true, false)).unwrap();
    assert_eq!(as_dir(&with).entries()[0].unwrap_as_file().name().as_str(), "b.txt");
    assert_eq!(as_dir(&with).entries()[1].unwrap_as_file().name().as_str(), ".env");
}

#[test]
fn build_rejects_aggregate_overflow() {
    let raw = RawDir {
        name: String::from(""),
        metadata: meta(u64::MAX, FileKind::Directory),
        children: vec![raw_file("a", 1)],
    };
    assert!(build_tree(raw, &args_with(false, false)).is_none());
}

#[test]
fn relative_names() {
    assert_eq!(relative_name("/home/u/docs", "/home/u"), Some(String::from("docs")));
    assert_eq!(relative_name("/home/u", "/home/u"), Some(String::from("")));
    assert_eq!(relative_name("/other", "/home"), None);
}

#[test]
fn node_kind_predicates() {
    let tree = build_tree(sample_raw(), &args_with(false, true)).unwrap();
    assert!(tree.is_dir());
    assert!(!tree.is_file());
    assert!(!tree.is_symlink());
    let root = as_dir(&tree);
    assert_eq!(tree.unwrap_as_file().name().as_str(), "");
    let file = File::new(String::from(".cfg"), meta(1, FileKind::Regular));
    assert!(file.is_hidden());
    let file = File::new(String::from("cfg"), meta(1, FileKind::Regular));
    assert!(!file.is_hidden());
    assert_eq!(root.as_file().metadata().size, 100);
}
