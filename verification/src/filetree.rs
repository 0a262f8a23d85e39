use crate::Args;
use vstd::prelude::*;
use vstd::string::StrSliceExecFns;

verus! {

/// The kind of a filesystem entry, as the metadata provider reports it.
#[derive(Debug, Clone, Copy, PartialEq, Eq, Structural)]
pub enum FileKind {
    Directory,
    Regular,
    Symlink,
}

/// The abstract metadata record an entry carries: plain values the provider
/// resolved before the tree was built (owner and group already as names, the
/// modification time already as display text, or `None` where the platform
/// has none).
#[derive(Debug)]
pub struct Metadata {
    pub size: u64,
    pub nlink: u64,
    pub mode: u32,
    pub blocks: u64,
    pub kind: FileKind,
    pub owner: String,
    pub group: String,
    pub modified: Option<String>,
}

/// Mathematical model of a metadata record.
pub struct MetaV {
    pub size: u64,
    pub nlink: u64,
    pub mode: u32,
    pub blocks: u64,
    pub kind: FileKind,
    pub owner: Seq<char>,
    pub group: Seq<char>,
    pub modified: Option<Seq<char>>,
}

impl View for Metadata {
    type V = MetaV;

    open spec fn view(&self) -> MetaV {
        MetaV {
            size: self.size,
            nlink: self.nlink,
            mode: self.mode,
            blocks: self.blocks,
            kind: self.kind,
            owner: self.owner@,
            group: self.group@,
            modified: match self.modified {
                Some(ref s) => Some(s@),
                None => None,
            },
        }
    }
}

impl Metadata {
    pub fn is_dir(&self) -> (r: bool)
        ensures
            r == (self@.kind == FileKind::Directory),
    {
        self.kind == FileKind::Directory
    }

    pub fn is_symlink(&self) -> (r: bool)
        ensures
            r == (self@.kind == FileKind::Symlink),
    {
        self.kind == FileKind::Symlink
    }
}

/// One filesystem entry's identity: its final path component and metadata.
#[derive(Debug)]
pub struct File {
    pub name: String,
    pub metadata: Metadata,
}

/// Mathematical model of a `File`.
pub struct FileV {
    pub name: Seq<char>,
    pub meta: MetaV,
}

impl View for File {
    type V = FileV;

    open spec fn view(&self) -> FileV {
        FileV { name: self.name@, meta: self.metadata@ }
    }
}

/// A symbolic link: a `File` plus the raw target text captured at traversal.
#[derive(Debug)]
pub struct SymLink {
    pub file: File,
    pub target: String,
}

/// Mathematical model of a `SymLink`.
pub struct LinkV {
    pub file: FileV,
    pub target: Seq<char>,
}

/// A directory: a `File` plus its children and the aggregates built while
/// the children were added.
#[derive(Debug)]
pub struct Directory {
    pub file: File,
    pub entries: Vec<FileTree>,
    pub total_size: u64,
    pub count: usize,
}

/// Mathematical model of a `Directory`.
pub struct DirV {
    pub file: FileV,
    pub entries: Seq<TreeV>,
    pub total_size: u64,
    pub count: usize,
}

/// The tagged union over the three node kinds.
#[derive(Debug)]
pub enum FileTree {
    DirNode(Directory),
    FileNode(File),
    LinkNode(SymLink),
}

/// Mathematical model of a `FileTree`.
pub enum TreeV {
    Dir(DirV),
    File(FileV),
    Link(LinkV),
}

/// Model of a whole tree node.
pub open spec fn tree_view(t: FileTree) -> TreeV
    decreases t,
{
    match t {
        FileTree::DirNode(d) => TreeV::Dir(dir_view(d)),
        FileTree::FileNode(f) => TreeV::File(f@),
        FileTree::LinkNode(l) => TreeV::Link(LinkV { file: l.file@, target: l.target@ }),
    }
}

/// Model of a sequence of sibling nodes, element-wise.
pub open spec fn seq_tree_view(s: Seq<FileTree>) -> Seq<TreeV>
    decreases s,
{
    if s.len() == 0 {
        Seq::empty()
    } else {
        seq![tree_view(s[0])] + seq_tree_view(s.subrange(1, s.len() as int))
    }
}

/// Model of a directory node.
pub open spec fn dir_view(d: Directory) -> DirV
    decreases d,
{
    DirV {
        file: d.file@,
        entries: seq_tree_view(d.entries@),
        total_size: d.total_size,
        count: d.count,
    }
}

/// Element-wise description of `seq_tree_view`.
pub proof fn lemma_seq_tree_view(s: Seq<FileTree>)
    ensures
        seq_tree_view(s).len() == s.len(),
        forall|i: int| 0 <= i < s.len() ==> seq_tree_view(s)[i] == tree_view(#[trigger] s[i]),
    decreases s.len(),
{
    if s.len() > 0 {
        let sub = s.subrange(1, s.len() as int);
        lemma_seq_tree_view(sub);
        assert forall|i: int| 0 <= i < s.len() implies seq_tree_view(s)[i] == tree_view(
            #[trigger] s[i],
        ) by {
            if i > 0 {
                assert(sub[i - 1] == s[i]);
                assert(seq_tree_view(s)[i] == seq_tree_view(sub)[i - 1]);
            }
        }
    }
}

impl View for FileTree {
    type V = TreeV;

    open spec fn view(&self) -> TreeV {
        tree_view(*self)
    }
}

impl View for Directory {
    type V = DirV;

    open spec fn view(&self) -> DirV {
        dir_view(*self)
    }
}

impl View for SymLink {
    type V = LinkV;

    open spec fn view(&self) -> LinkV {
        LinkV { file: self.file@, target: self.target@ }
    }
}

/// The shared `File` identity of a node, regardless of its kind.
pub open spec fn spec_as_file(t: TreeV) -> FileV {
    match t {
        TreeV::Dir(d) => d.file,
        TreeV::File(f) => f,
        TreeV::Link(l) => l.file,
    }
}

impl FileTree {
    pub fn is_dir(&self) -> (r: bool)
        ensures
            r == (self@ is Dir),
    {
        matches!(self, FileTree::DirNode(_))
    }

    pub fn is_file(&self) -> (r: bool)
        ensures
            r == (self@ is File),
    {
        matches!(self, FileTree::FileNode(_))
    }

    pub fn is_symlink(&self) -> (r: bool)
        ensures
            r == (self@ is Link),
    {
        matches!(self, FileTree::LinkNode(_))
    }

    /// The uniform `File` view of the node.
    pub fn unwrap_as_file(&self) -> (r: &File)
        ensures
            r@ == spec_as_file(self@),
    {
        match self {
            FileTree::DirNode(d) => &d.file,
            FileTree::FileNode(f) => f,
            FileTree::LinkNode(l) => &l.file,
        }
    }
}

/// Whether a name marks a hidden entry: it starts with a dot.
pub open spec fn name_hidden(name: Seq<char>) -> bool {
    name.len() > 0 && name[0] == '.'
}

impl File {
    pub fn new(name: String, metadata: Metadata) -> (r: Self)
        ensures
            r@.name == name@,
            r@.meta == metadata@,
    {
        Self { name, metadata }
    }

    pub fn metadata(&self) -> (r: &Metadata)
        ensures
            r@ == self@.meta,
    {
        &self.metadata
    }

    pub fn name(&self) -> (r: &String)
        ensures
            r@ == self@.name,
    {
        &self.name
    }

    pub fn is_hidden(&self) -> (r: bool)
        ensures
            r == name_hidden(self@.name),
    {
        if self.name.as_str().is_empty() {
            false
        } else {
            let c = self.name.as_str().get_char(0);
            c == '.'
        }
    }
}

impl SymLink {
    pub fn new(name: String, metadata: Metadata, target: String) -> (r: Self)
        ensures
            r@.file.name == name@,
            r@.file.meta == metadata@,
            r@.target == target@,
    {
        Self { file: File::new(name, metadata), target }
    }

    pub fn as_file(&self) -> (r: &File)
        ensures
            r@ == self@.file,
    {
        &self.file
    }
}

impl Directory {
    /// A fresh directory node: no children yet, `total_size` starting from
    /// the directory's own metadata size, `count` from zero.
    pub fn new(name: String, metadata: Metadata) -> (r: Self)
        ensures
            r@.file.name == name@,
            r@.file.meta == metadata@,
            r@.entries == Seq::<TreeV>::empty(),
            r@.total_size == metadata@.size,
            r@.count == 0,
    {
        let total_size = metadata.size;
        let r = Self { file: File::new(name, metadata), entries: Vec::new(), total_size, count: 0 };
        proof {
            assert(r@.entries =~= Seq::<TreeV>::empty());
        }
        r
    }

    pub fn count(&self) -> (r: usize)
        ensures
            r == self@.count,
    {
        self.count
    }

    pub fn total_size(&self) -> (r: u64)
        ensures
            r == self@.total_size,
    {
        self.total_size
    }

    pub fn as_file(&self) -> (r: &File)
        ensures
            r@ == self@.file,
    {
        &self.file
    }

    /// The children, in their current order, open for reordering.
    pub fn mut_entries(&mut self) -> (r: &mut Vec<FileTree>)
        ensures
            *r == old(self).entries,
            final(self).entries == *final(r),
            final(self).file == old(self).file,
            final(self).total_size == old(self).total_size,
            final(self).count == old(self).count,
    {
        &mut self.entries
    }

    /// The children, in their current order.
    pub fn entries(&self) -> (r: &Vec<FileTree>)
        ensures
            r@.len() == self@.entries.len(),
            forall|i: int| 0 <= i < r@.len() ==> tree_view(#[trigger] r@[i]) == self@.entries[i],
    {
        proof {
            lemma_seq_tree_view(self.entries@);
        }
        &self.entries
    }
}

/// What one child adds to its parent's `total_size`: a regular file its
/// size, a subdirectory its aggregated `total_size`, a symlink nothing.
pub open spec fn contrib_size(t: TreeV) -> int {
    match t {
        TreeV::File(f) => f.meta.size as int,
        TreeV::Dir(d) => d.total_size as int,
        TreeV::Link(_) => 0,
    }
}

/// What one child adds to its parent's `count`: one per regular file, a
/// subdirectory its own descendant-file count, a symlink nothing.
pub open spec fn contrib_count(t: TreeV) -> int {
    match t {
        TreeV::File(_) => 1,
        TreeV::Dir(d) => d.count as int,
        TreeV::Link(_) => 0,
    }
}

pub open spec fn sum_sizes(s: Seq<TreeV>) -> int
    decreases s.len(),
{
    if s.len() == 0 {
        0
    } else {
        contrib_size(s[0]) + sum_sizes(s.subrange(1, s.len() as int))
    }
}

pub open spec fn sum_counts(s: Seq<TreeV>) -> int
    decreases s.len(),
{
    if s.len() == 0 {
        0
    } else {
        contrib_count(s[0]) + sum_counts(s.subrange(1, s.len() as int))
    }
}

pub proof fn lemma_sums_nonneg(s: Seq<TreeV>)
    ensures
        sum_sizes(s) >= 0,
        sum_counts(s) >= 0,
    decreases s.len(),
{
    if s.len() > 0 {
        lemma_sums_nonneg(s.subrange(1, s.len() as int));
    }
}

/// The aggregation invariant: every directory's stored aggregates equal the
/// sums over its direct children, recursively.
pub open spec fn tree_wf(t: TreeV) -> bool
    decreases t,
{
    match t {
        TreeV::Dir(d) => dir_wf(d),
        _ => true,
    }
}

pub open spec fn dir_wf(d: DirV) -> bool
    decreases d,
{
    &&& d.total_size as int == d.file.meta.size + sum_sizes(d.entries)
    &&& d.count as int == sum_counts(d.entries)
    &&& forall|i: int| 0 <= i < d.entries.len() ==> tree_wf(#[trigger] d.entries[i])
}

/// The number of file-type nodes in a subtree.
pub open spec fn file_node_count(t: TreeV) -> int
    decreases t,
{
    match t {
        TreeV::File(_) => 1,
        TreeV::Link(_) => 0,
        TreeV::Dir(d) => file_count_seq(d.entries),
    }
}

pub open spec fn file_count_seq(s: Seq<TreeV>) -> int
    decreases s,
{
    if s.len() == 0 {
        0
    } else {
        file_node_count(s[0]) + file_count_seq(s.subrange(1, s.len() as int))
    }
}

/// Every well-formed directory's `count` is exactly the number of file-type
/// nodes reachable in its subtree (a traversal boundary left a subdirectory
/// with no entries and count zero, so nothing beyond it is counted).
pub proof fn lemma_count_is_file_count(t: TreeV)
    requires
        tree_wf(t),
    ensures
        t is Dir ==> t->Dir_0.count == file_node_count(t),
    decreases t,
{
    match t {
        TreeV::Dir(d) => {
            lemma_count_seq(d.entries);
        },
        _ => {},
    }
}

proof fn lemma_count_seq(s: Seq<TreeV>)
    requires
        forall|i: int| 0 <= i < s.len() ==> tree_wf(#[trigger] s[i]),
    ensures
        sum_counts(s) == file_count_seq(s),
    decreases s,
{
    if s.len() > 0 {
        assert(tree_wf(s[0]));
        lemma_count_is_file_count(s[0]);
        let sub = s.subrange(1, s.len() as int);
        assert(forall|i: int| 0 <= i < sub.len() ==> tree_wf(#[trigger] sub[i]));
        lemma_count_seq(sub);
        assert(contrib_count(s[0]) == file_node_count(s[0]));
        assert(sum_counts(s) == contrib_count(s[0]) + sum_counts(sub));
        assert(file_count_seq(s) == file_node_count(s[0]) + file_count_seq(sub));
    }
}

/// Every well-formed directory's `total_size` is its own metadata size plus
/// the sum of its direct children's contributions.
pub proof fn lemma_total_size_rule(d: DirV)
    requires
        dir_wf(d),
    ensures
        d.total_size as int == d.file.meta.size + sum_sizes(d.entries),
{
}

impl Directory {
    /// Appends a child and folds its contribution into the aggregates.
    pub fn add_node(&mut self, node: FileTree)
        requires
            old(self)@.total_size + contrib_size(node@) <= u64::MAX,
            old(self)@.count + contrib_count(node@) <= usize::MAX,
        ensures
            final(self)@.file == old(self)@.file,
            final(self)@.entries == old(self)@.entries.push(node@),
            final(self)@.total_size == old(self)@.total_size + contrib_size(node@),
            final(self)@.count == old(self)@.count + contrib_count(node@),
    {
        proof {
            lemma_seq_tree_view(old(self).entries@);
        }
        let (size_increase, count_increase): (u64, usize) = match &node {
            FileTree::FileNode(f) => (f.metadata.size, 1),
            FileTree::DirNode(d) => (d.total_size, d.count),
            FileTree::LinkNode(_) => (0, 0),
        };
        self.total_size = self.total_size + size_increase;
        self.count = self.count + count_increase;
        self.entries.push(node);
        proof {
            lemma_seq_tree_view(self.entries@);
            assert(self.entries@ == old(self).entries@.push(node));
            assert forall|i: int| 0 <= i < self.entries@.len() implies seq_tree_view(
                self.entries@,
            )[i] == old(self)@.entries.push(tree_view(node))[i] by {
                if i < old(self).entries@.len() {
                    assert(self.entries@[i] == old(self).entries@[i]);
                } else {
                    assert(self.entries@[i] == node);
                }
            }
            assert(self@.entries =~= old(self)@.entries.push(tree_view(node)));
        }
    }
}

/// The raw listing of one filesystem entry, as the traversal found it:
/// names, metadata and (for directories) children, before filtering and
/// aggregation.
#[derive(Debug)]
pub enum RawNode {
    DirNode(RawDir),
    FileNode(RawFile),
    LinkNode(RawLink),
}

#[derive(Debug)]
pub struct RawFile {
    pub name: String,
    pub metadata: Metadata,
}

#[derive(Debug)]
pub struct RawLink {
    pub name: String,
    pub metadata: Metadata,
    pub target: String,
}

#[derive(Debug)]
pub struct RawDir {
    pub name: String,
    pub metadata: Metadata,
    pub children: Vec<RawNode>,
}

/// Mathematical models of the raw listing.
pub enum RawNodeV {
    Dir(RawDirV),
    File(RawFileV),
    Link(RawLinkV),
}

pub struct RawFileV {
    pub name: Seq<char>,
    pub meta: MetaV,
}

pub struct RawLinkV {
    pub name: Seq<char>,
    pub meta: MetaV,
    pub target: Seq<char>,
}

pub struct RawDirV {
    pub name: Seq<char>,
    pub meta: MetaV,
    pub children: Seq<RawNodeV>,
}

pub open spec fn raw_node_view(r: RawNode) -> RawNodeV
    decreases r,
{
    match r {
        RawNode::DirNode(d) => RawNodeV::Dir(raw_dir_view(d)),
        RawNode::FileNode(f) => RawNodeV::File(RawFileV { name: f.name@, meta: f.metadata@ }),
        RawNode::LinkNode(l) => RawNodeV::Link(
            RawLinkV { name: l.name@, meta: l.metadata@, target: l.target@ },
        ),
    }
}

pub open spec fn raw_seq_view(s: Seq<RawNode>) -> Seq<RawNodeV>
    decreases s,
{
    if s.len() == 0 {
        Seq::empty()
    } else {
        seq![raw_node_view(s[0])] + raw_seq_view(s.subrange(1, s.len() as int))
    }
}

pub open spec fn raw_dir_view(d: RawDir) -> RawDirV
    decreases d,
{
    RawDirV { name: d.name@, meta: d.metadata@, children: raw_seq_view(d.children@) }
}

/// Element-wise description of `raw_seq_view`.
pub proof fn lemma_raw_seq_view(s: Seq<RawNode>)
    ensures
        raw_seq_view(s).len() == s.len(),
        forall|i: int| 0 <= i < s.len() ==> raw_seq_view(s)[i] == raw_node_view(#[trigger] s[i]),
    decreases s.len(),
{
    if s.len() > 0 {
        let sub = s.subrange(1, s.len() as int);
        lemma_raw_seq_view(sub);
        assert forall|i: int| 0 <= i < s.len() implies raw_seq_view(s)[i] == raw_node_view(
            #[trigger] s[i],
        ) by {
            if i > 0 {
                assert(sub[i - 1] == s[i]);
                assert(raw_seq_view(s)[i] == raw_seq_view(sub)[i - 1]);
            }
        }
    }
}

impl View for RawNode {
    type V = RawNodeV;

    open spec fn view(&self) -> RawNodeV {
        raw_node_view(*self)
    }
}

impl View for RawDir {
    type V = RawDirV;

    open spec fn view(&self) -> RawDirV {
        raw_dir_view(*self)
    }
}

/// The name of a raw entry, whatever its kind.
pub open spec fn raw_name(r: RawNodeV) -> Seq<char> {
    match r {
        RawNodeV::Dir(d) => d.name,
        RawNodeV::File(f) => f.name,
        RawNodeV::Link(l) => l.name,
    }
}

/// The hidden-entry filter: an entry takes part in the listing exactly when
/// its name is not hidden or hidden entries were asked for.
pub open spec fn included(name: Seq<char>, include_hidden: bool) -> bool {
    include_hidden || !name_hidden(name)
}

/// The tree the walker builds from one raw node. A subdirectory met while
/// recursion is off becomes a shallow directory node: own name and metadata,
/// no entries, default aggregates.
pub open spec fn build_node_v(r: RawNodeV, ih: bool, rec: bool) -> TreeV
    decreases r,
{
    match r {
        RawNodeV::File(f) => TreeV::File(FileV { name: f.name, meta: f.meta }),
        RawNodeV::Link(l) => TreeV::Link(
            LinkV { file: FileV { name: l.name, meta: l.meta }, target: l.target },
        ),
        RawNodeV::Dir(d) => {
            if rec {
                TreeV::Dir(build_dir_v(d, ih, rec))
            } else {
                TreeV::Dir(
                    DirV {
                        file: FileV { name: d.name, meta: d.meta },
                        entries: Seq::empty(),
                        total_size: d.meta.size,
                        count: 0,
                    },
                )
            }
        },
    }
}

/// The children the walker keeps, in discovery order, each built in turn.
pub open spec fn build_children_v(s: Seq<RawNodeV>, ih: bool, rec: bool) -> Seq<TreeV>
    decreases s,
{
    if s.len() == 0 {
        Seq::empty()
    } else {
        let rest = build_children_v(s.subrange(1, s.len() as int), ih, rec);
        if included(raw_name(s[0]), ih) {
            seq![build_node_v(s[0], ih, rec)] + rest
        } else {
            rest
        }
    }
}

/// The directory node the walker builds: kept children plus aggregates
/// folded bottom-up from them.
pub open spec fn build_dir_v(d: RawDirV, ih: bool, rec: bool) -> DirV
    decreases d,
{
    let kids = build_children_v(d.children, ih, rec);
    DirV {
        file: FileV { name: d.name, meta: d.meta },
        entries: kids,
        total_size: (d.meta.size + sum_sizes(kids)) as u64,
        count: sum_counts(kids) as usize,
    }
}

/// Whether every aggregate met while building stays within its machine
/// bounds, so the build succeeds.
pub open spec fn build_ok_node(r: RawNodeV, ih: bool, rec: bool) -> bool
    decreases r,
{
    match r {
        RawNodeV::Dir(d) => rec ==> build_ok_dir(d, ih, rec),
        _ => true,
    }
}

pub open spec fn build_ok_children(s: Seq<RawNodeV>, ih: bool, rec: bool) -> bool
    decreases s,
{
    if s.len() == 0 {
        true
    } else {
        &&& (included(raw_name(s[0]), ih) ==> build_ok_node(s[0], ih, rec))
        &&& build_ok_children(s.subrange(1, s.len() as int), ih, rec)
    }
}

pub open spec fn build_ok_dir(d: RawDirV, ih: bool, rec: bool) -> bool
    decreases d,
{
    let kids = build_children_v(d.children, ih, rec);
    &&& build_ok_children(d.children, ih, rec)
    &&& d.meta.size + sum_sizes(kids) <= u64::MAX
    &&& sum_counts(kids) <= usize::MAX
}

/// Whether a string names a hidden entry.
fn str_hidden(name: &String) -> (r: bool)
    ensures
        r == name_hidden(name@),
{
    if name.as_str().is_empty() {
        false
    } else {
        name.as_str().get_char(0) == '.'
    }
}


/// What the walker builds is well formed: the aggregates it stores satisfy
/// the aggregation invariant throughout the tree.
pub proof fn lemma_build_dir_wf(d: RawDirV, ih: bool, rec: bool)
    requires
        build_ok_dir(d, ih, rec),
    ensures
        dir_wf(build_dir_v(d, ih, rec)),
    decreases d,
{
    lemma_build_children_wf(d.children, ih, rec);
    lemma_sums_nonneg(build_children_v(d.children, ih, rec));
}

proof fn lemma_build_children_wf(s: Seq<RawNodeV>, ih: bool, rec: bool)
    requires
        build_ok_children(s, ih, rec),
    ensures
        forall|i: int|
            0 <= i < build_children_v(s, ih, rec).len() ==> tree_wf(
                #[trigger] build_children_v(s, ih, rec)[i],
            ),
    decreases s,
{
    if s.len() > 0 {
        let sub = s.subrange(1, s.len() as int);
        let rest = build_children_v(sub, ih, rec);
        lemma_build_children_wf(sub, ih, rec);
        if included(raw_name(s[0]), ih) {
            lemma_build_node_wf(s[0], ih, rec);
            assert forall|i: int| 0 <= i < build_children_v(s, ih, rec).len() implies tree_wf(
                #[trigger] build_children_v(s, ih, rec)[i],
            ) by {
                if i > 0 {
                    assert(build_children_v(s, ih, rec)[i] == rest[i - 1]);
                }
            }
        }
    }
}

proof fn lemma_build_node_wf(r: RawNodeV, ih: bool, rec: bool)
    requires
        build_ok_node(r, ih, rec),
    ensures
        tree_wf(build_node_v(r, ih, rec)),
    decreases r,
{
    match r {
        RawNodeV::Dir(d) => {
            if rec {
                lemma_build_dir_wf(d, ih, rec);
            }
        },
        _ => {},
    }
}

/// Builds the tree for one directory: the walker's compute half. The raw
/// listing is what the traversal found; `args.all` keeps hidden entries,
/// `args.recursive` descends into subdirectories. Returns `None` exactly
/// when an aggregate would not fit its machine integer.
pub fn build_tree(raw: RawDir, args: &Args) -> (r: Option<FileTree>)
    ensures
        r is Some <==> build_ok_dir(raw@, args.all, args.recursive),
        r is Some ==> r->Some_0@ == TreeV::Dir(build_dir_v(raw@, args.all, args.recursive)),
        r is Some ==> tree_wf(r->Some_0@),
{
    let ghost rawv = raw@;
    let r = build_dir(raw, args.all, args.recursive);
    match r {
        Some(d) => {
            proof {
                lemma_build_dir_wf(rawv, args.all, args.recursive);
            }
            Some(FileTree::DirNode(d))
        },
        None => None,
    }
}

fn build_dir(raw: RawDir, ih: bool, rec: bool) -> (r: Option<Directory>)
    ensures
        r is Some <==> build_ok_dir(raw@, ih, rec),
        r is Some ==> r->Some_0@ == build_dir_v(raw@, ih, rec),
    decreases raw,
{
    let ghost rawv = raw@;
    proof {
        assert(decreases_to!(raw => raw.children));
        assert(decreases_to!(raw.children => raw.children@));
    }
    let RawDir { name, metadata, children } = raw;
    let mut dir = Directory::new(name, metadata);
    let ok = build_into(&mut dir, children, ih, rec);
    if ok {
        proof {
            assert(dir@ =~= build_dir_v(rawv, ih, rec));
        }
        Some(dir)
    } else {
        None
    }
}

/// Builds every kept child of `children` and appends it to `dir`.
/// `false` reports an aggregate that left its machine bounds; `dir` is then
/// abandoned by the caller.
fn build_into(dir: &mut Directory, children: Vec<RawNode>, ih: bool, rec: bool) -> (ok: bool)
    ensures
        ok <==> ({
            let kids = build_children_v(raw_seq_view(children@), ih, rec);
            &&& build_ok_children(raw_seq_view(children@), ih, rec)
            &&& old(dir)@.total_size + sum_sizes(kids) <= u64::MAX
            &&& old(dir)@.count + sum_counts(kids) <= usize::MAX
        }),
        ok ==> ({
            let kids = build_children_v(raw_seq_view(children@), ih, rec);
            &&& final(dir)@.file == old(dir)@.file
            &&& final(dir)@.entries == old(dir)@.entries + kids
            &&& final(dir)@.total_size == old(dir)@.total_size + sum_sizes(kids)
            &&& final(dir)@.count == old(dir)@.count + sum_counts(kids)
        }),
    decreases children@,
{
    let ghost kidsv = raw_seq_view(children@);
    let mut rest = children;
    if rest.len() == 0 {
        proof {
            assert(dir@.entries =~= old(dir)@.entries + build_children_v(kidsv, ih, rec));
        }
        return true;
    }
    let ghost restv = raw_seq_view(rest@.subrange(1, rest@.len() as int));
    let ghost child0 = rest@[0];
    proof {
        lemma_raw_seq_view(rest@);
        assert(kidsv =~= seq![raw_node_view(child0)] + restv);
        assert(kidsv.subrange(1, kidsv.len() as int) =~= restv);
    }
    let child = rest.remove(0);
    let ghost childv = raw_node_view(child);
    let name_hidden_flag = {
        let name_ref: &String = match &child {
            RawNode::DirNode(d) => &d.name,
            RawNode::FileNode(f) => &f.name,
            RawNode::LinkNode(l) => &l.name,
        };
        str_hidden(name_ref)
    };
    if name_hidden_flag && !ih {
        proof {
            assert(!included(raw_name(childv), ih));
            assert(kidsv[0] == childv);
            assert(build_children_v(kidsv, ih, rec) =~= build_children_v(restv, ih, rec));
            assert(build_ok_children(kidsv, ih, rec) == build_ok_children(restv, ih, rec));
            assert(decreases_to!(children@ => rest@));
        }
        return build_into(dir, rest, ih, rec);
    }
    proof {
        assert(included(raw_name(childv), ih));
    }
    let node: FileTree = match child {
        RawNode::FileNode(f) => FileTree::FileNode(File::new(f.name, f.metadata)),
        RawNode::LinkNode(l) => FileTree::LinkNode(SymLink::new(l.name, l.metadata, l.target)),
        RawNode::DirNode(d) => {
            if rec {
                proof {
                    assert(child0 == RawNode::DirNode(d));
                    assert(decreases_to!(children@ => child0));
                    assert(decreases_to!(child0 => d));
                }
                let ghost dv = raw_dir_view(d);
                let sub = build_dir(d, ih, rec);
                match sub {
                    Some(s) => FileTree::DirNode(s),
                    None => {
                        proof {
                            assert(childv == RawNodeV::Dir(dv));
                            assert(!build_ok_dir(dv, ih, rec));
                            assert(!build_ok_node(childv, ih, rec));
                            assert(kidsv[0] == childv);
                            assert(!build_ok_children(kidsv, ih, rec));
                        }
                        return false;
                    },
                }
            } else {
                FileTree::DirNode(Directory::new(d.name, d.metadata))
            }
        },
    };
    proof {
        assert(node@ =~= build_node_v(childv, ih, rec));
        assert(build_ok_node(childv, ih, rec));
        lemma_sums_nonneg(build_children_v(restv, ih, rec));
        let kids = build_children_v(kidsv, ih, rec);
        let rest_kids = build_children_v(restv, ih, rec);
        assert(kidsv[0] == childv);
        assert(kids =~= seq![build_node_v(childv, ih, rec)] + rest_kids);
        assert(kids[0] == node@);
        assert(kids.subrange(1, kids.len() as int) =~= rest_kids);
        assert(sum_sizes(kids) == contrib_size(node@) + sum_sizes(rest_kids));
        assert(sum_counts(kids) == contrib_count(node@) + sum_counts(rest_kids));
        assert(build_ok_children(kidsv, ih, rec) == build_ok_children(restv, ih, rec));
    }
    let (sz, ct): (u64, usize) = match &node {
        FileTree::FileNode(f) => (f.metadata.size, 1),
        FileTree::DirNode(dd) => (dd.total_size, dd.count),
        FileTree::LinkNode(_) => (0, 0),
    };
    proof {
        assert(sz as int == contrib_size(node@));
        assert(ct as int == contrib_count(node@));
    }
    if sz > u64::MAX - dir.total_size {
        return false;
    }
    if ct > usize::MAX - dir.count {
        return false;
    }
    dir.add_node(node);
    proof {
        assert(decreases_to!(children@ => rest@));
    }
    let r = build_into(dir, rest, ih, rec);
    proof {
        if r {
            assert(dir@.entries =~= old(dir)@.entries + build_children_v(kidsv, ih, rec));
        }
    }
    r
}


/// The display name of `current` relative to `root`: what follows the root
/// prefix, one leading separator stripped; nothing when `current` does not
/// start with `root`. The traversal root itself gets the empty name.
pub open spec fn relative_name_spec(current: Seq<char>, root: Seq<char>) -> Option<Seq<char>> {
    if root.is_prefix_of(current) {
        let rest = current.subrange(root.len() as int, current.len() as int);
        if rest.len() > 0 && rest[0] == '/' {
            Some(rest.subrange(1, rest.len() as int))
        } else {
            Some(rest)
        }
    } else {
        None
    }
}

pub fn relative_name(current: &str, root: &str) -> (r: Option<String>)
    ensures
        r is Some <==> relative_name_spec(current@, root@) is Some,
        r is Some ==> r->Some_0@ == relative_name_spec(current@, root@)->Some_0,
{
    let nc = current.unicode_len();
    let nr = root.unicode_len();
    if nr > nc {
        proof {
            assert(!root@.is_prefix_of(current@));
        }
        return None;
    }
    let mut i: usize = 0;
    while i < nr
        invariant
            i <= nr,
            nr == root@.len(),
            nc == current@.len(),
            nr <= nc,
            forall|j: int| 0 <= j < i ==> current@[j] == root@[j],
        decreases nr - i,
    {
        if current.get_char(i) != root.get_char(i) {
            proof {
                assert(current@.subrange(0, nr as int)[i as int] != root@[i as int]);
                assert(!root@.is_prefix_of(current@));
            }
            return None;
        }
        i = i + 1;
    }
    proof {
        assert(root@ =~= current@.subrange(0, nr as int));
        assert(root@.is_prefix_of(current@));
    }
    let ghost rest = current@.subrange(nr as int, nc as int);
    let start = if nr < nc && current.get_char(nr) == '/' {
        proof {
            assert(rest[0] == '/');
        }
        nr + 1
    } else {
        proof {
            if rest.len() > 0 {
                assert(rest[0] == current@[nr as int]);
            }
        }
        nr
    };
    let tail = current.substring_char(start, nc);
    proof {
        if start == nr + 1 {
            assert(tail@ =~= rest.subrange(1, rest.len() as int));
        } else {
            assert(tail@ =~= rest);
        }
    }
    Some(String::from_str(tail))
}

} // verus!
