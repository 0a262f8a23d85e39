use lsr::filetree::{
    build_tree, Directory, File, FileKind, FileTree, Metadata, RawDir, RawFile, RawNode,
};
use lsr::ui::{get_modified_string, get_permission_string_by_group};
use lsr::Args;

const BLUE: &str = "\u{1b}[34m";
const WHITE: &str = "\u{1b}[37m";
const RESET: &str = "\u{1b}[0m";

fn args() -> Args {
    Args {
        all: false,
        recursive: false,
        long: false,
        size: false,
        human_readable: false,
        one_file_per_line: false,
    }
}

fn meta(size: u64, kind: FileKind) -> Metadata {
    Metadata {
        size,
        nlink: 1,
        mode: 0o644,
        blocks: 8,
        kind,
        owner: String::from("alice"),
        group: String::from("staff"),
        modified: Some(String::from("01. Jan 00:00")),
    }
}

fn sample_raw() -> RawDir {
    RawDir {
        name: String::from(""),
        metadata: meta(100, FileKind::Directory),
        children: vec![
            RawNode::DirNode(RawDir {
                name: String::from("sub"),
                metadata: meta(50, FileKind::Directory),
                children: vec![RawNode::FileNode(RawFile {
                    name: String::from("inner.txt"),
                    metadata: meta(5, FileKind::Regular),
                })],
            }),
            RawNode::FileNode(RawFile {
                name: String::from("a.txt"),
                metadata: meta(10, FileKind::Regular),
            }),
        ],
    }
}

#[test]
fn end_to_end_flat_listing() {
    let a = args();
    let mut tree = build_tree(sample_raw(), &a).unwrap();
    tree.sort_by(&a).unwrap();
    let lines = FileTree::ls_print(&tree, &a);
    assert_eq!(
        lines,
        vec![format!("{WHITE}a.txt{RESET}  {BLUE}sub{RESET}/")]
    );
}

#[test]
fn end_to_end_recursive_listing() {
    let a = Args { recursive: true, ..args() };
    let mut tree = build_tree(sample_raw(), &a).unwrap();
    tree.sort_by(&a).unwrap();
    let lines = FileTree::ls_print(&tree, &a);
    assert_eq!(
        lines,
        vec![
            format!("{WHITE}a.txt{RESET}  {BLUE}sub{RESET}/"),
            String::new(),
            String::from("sub:"),
            format!("{WHITE}inner.txt{RESET}"),
        ]
    );
}

#[test]
fn long_mode_lines() {
    let a = Args { long: true, ..args() };
    let mut dir = Directory::new(String::from(""), meta(100, FileKind::Directory));
    dir.add_node(FileTree::FileNode(File::new(
        String::from("a.txt"),
        meta(10, FileKind::Regular),
    )));
    let tree = FileTree::DirNode(dir);
    let lines = FileTree::ls_print(&tree, &a);
    assert_eq!(
        lines,
        vec![
            String::from("total 0"),
            format!("-rw-r--r-- 1 alice staff 10 01. Jan 00:00 {WHITE}a.txt{RESET}"),
        ]
    );
}

#[test]
fn long_mode_human_readable_total() {
    let a = Args { long: true, human_readable: true, ..args() };
    let mut dir = Directory::new(String::from(""), meta(2000, FileKind::Directory));
    dir.add_node(FileTree::FileNode(File::new(
        String::from("a.txt"),
        meta(10, FileKind::Regular),
    )));
    let tree = FileTree::DirNode(dir);
    let lines = FileTree::ls_print(&tree, &a);
    assert_eq!(
        lines,
        vec![
            String::from("total 1K"),
            format!("-rw-r--r-- 1 alice staff 10B 01. Jan 00:00 {WHITE}a.txt{RESET}"),
        ]
    );
}

#[test]
fn long_mode_column_padding() {
    let a = Args { long: true, ..args() };
    let mut dir = Directory::new(String::from(""), meta(0, FileKind::Directory));
    let mut big = meta(12345, FileKind::Regular);
    big.nlink = 12;
    big.modified = None;
    let mut small = meta(5, FileKind::Regular);
    small.nlink = 3;
    small.modified = None;
    dir.add_node(FileTree::FileNode(File::new(String::from("big"), big)));
    dir.add_node(FileTree::FileNode(File::new(String::from("s"), small)));
    let tree = FileTree::DirNode(dir);
    let lines = FileTree::ls_print(&tree, &a);
    // Plain-style sizes are still unit-scaled, only without the suffix:
    // 12345 bytes display as 12.
    assert_eq!(
        lines,
        vec![
            String::from("total 12"),
            format!(
                "-rw-r--r-- 12 alice staff 12 time not supported on this platform {WHITE}big{RESET}"
            ),
            format!(
                "-rw-r--r--  3 alice staff  5 time not supported on this platform {WHITE}s{RESET}"
            ),
        ]
    );
}

#[test]
fn block_size_prefix() {
    let a = Args { size: true, ..args() };
    let mut dir = Directory::new(String::from(""), meta(0, FileKind::Directory));
    dir.add_node(FileTree::FileNode(File::new(
        String::from("a.txt"),
        meta(10, FileKind::Regular),
    )));
    let tree = FileTree::DirNode(dir);
    let lines = FileTree::ls_print(&tree, &a);
    // 8 blocks of 512 bytes rescaled to 1024-byte units.
    assert_eq!(lines, vec![format!("4 {WHITE}a.txt{RESET}")]);
}

#[test]
fn one_file_per_line() {
    let a = Args { one_file_per_line: true, ..args() };
    let mut dir = Directory::new(String::from(""), meta(0, FileKind::Directory));
    dir.add_node(FileTree::FileNode(File::new(String::from("a"), meta(1, FileKind::Regular))));
    dir.add_node(FileTree::FileNode(File::new(String::from("b"), meta(1, FileKind::Regular))));
    let tree = FileTree::DirNode(dir);
    let lines = FileTree::ls_print(&tree, &a);
    assert_eq!(
        lines,
        vec![format!("{WHITE}a{RESET}"), format!("{WHITE}b{RESET}")]
    );
}

#[test]
fn empty_and_non_directory_listings() {
    let a = args();
    let tree = FileTree::DirNode(Directory::new(String::from(""), meta(0, FileKind::Directory)));
    assert_eq!(FileTree::ls_print(&tree, &a), Vec::<String>::new());
    let file = FileTree::FileNode(File::new(String::from("x"), meta(1, FileKind::Regular)));
    assert_eq!(FileTree::ls_print(&file, &a), Vec::<String>::new());
}

#[test]
fn permission_triplets() {
    assert_eq!(get_permission_string_by_group(0o754, 6), "rwx");
    assert_eq!(get_permission_string_by_group(0o754, 3), "r-x");
    assert_eq!(get_permission_string_by_group(0o754, 0), "r--");
    assert_eq!(get_permission_string_by_group(0, 6), "---");
}

#[test]
fn modified_time_placeholder() {
    let mut m = meta(1, FileKind::Regular);
    assert_eq!(get_modified_string(&m), "01. Jan 00:00");
    m.modified = None;
    assert_eq!(get_modified_string(&m), "time not supported on this platform");
}
