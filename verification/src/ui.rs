pub mod size;

use crate::filetree::{
    lemma_seq_tree_view, seq_tree_view, spec_as_file, tree_view, DirV, Directory, File, FileKind,
    FileTree, FileV, Metadata, MetaV, TreeV,
};
use crate::ui::size::{dec_str, pretty_spec, u64_to_string, PrettySize, PrettyStyle};
use crate::Args;
use vstd::prelude::*;
use vstd::string::StrSliceExecFns;
use vstd::string::StringExecFns;

verus! {

/// The kind letter that opens a permission string.
pub open spec fn kind_char(k: FileKind) -> char {
    match k {
        FileKind::Directory => 'd',
        FileKind::Symlink => 'l',
        FileKind::Regular => '-',
    }
}

/// One rwx triplet: the read, write and execute bits under `shift`.
pub open spec fn triplet_spec(mode: u32, shift: u32) -> Seq<char> {
    seq![
        if mode & (4u32 << shift) != 0 {
            'r'
        } else {
            '-'
        },
        if mode & (2u32 << shift) != 0 {
            'w'
        } else {
            '-'
        },
        if mode & (1u32 << shift) != 0 {
            'x'
        } else {
            '-'
        },
    ]
}

/// The ten-character permission string: kind letter, then the owner, group
/// and other triplets.
pub open spec fn perm_cls_spec(m: MetaV) -> Seq<char> {
    seq![kind_char(m.kind)] + triplet_spec(m.mode, 6) + triplet_spec(m.mode, 3) + triplet_spec(
        m.mode,
        0,
    )
}

/// `n` spaces.
pub open spec fn spaces_spec(n: nat) -> Seq<char> {
    Seq::new(n, |i: int| ' ')
}

/// The number of decimal digits of `n`.
pub open spec fn num_digits(n: nat) -> nat
    decreases n,
{
    if n < 10 {
        1
    } else {
        1 + num_digits(n / 10)
    }
}

/// The link-count column width a link count asks for: one less than its
/// digit count, and zero for a count of zero.
pub open spec fn link_pad_width(n: nat) -> nat {
    if n == 0 {
        0
    } else {
        (num_digits(n) - 1) as nat
    }
}

/// The displayed modification time, or the placeholder where the platform
/// reported none.
pub open spec fn modified_spec(m: MetaV) -> Seq<char> {
    match m.modified {
        Some(s) => s,
        None => "time not supported on this platform"@,
    }
}

/// A sequence right-aligned in a column of width `w`.
pub open spec fn pad_left(s: Seq<char>, w: nat) -> Seq<char> {
    if s.len() <= w {
        spaces_spec((w - s.len()) as nat) + s
    } else {
        s
    }
}

/// The link-count field: spaces up to the column width, then the count.
pub open spec fn link_field_spec(nlink: nat, pl: nat) -> Seq<char> {
    spaces_spec(
        if link_pad_width(nlink) <= pl {
            (pl - link_pad_width(nlink)) as nat
        } else {
            0
        },
    ) + dec_str(nlink)
}

/// The long-mode prefix of one entry: permissions, padded link count,
/// owner, group, padded size, modification time.
pub open spec fn perm_line_spec(m: MetaV, human: bool, pl: nat, ps: nat) -> Seq<char> {
    perm_cls_spec(m) + " "@ + link_field_spec(m.nlink as nat, pl) + " "@ + m.owner + " "@ + m.group
        + " "@ + pad_left(pretty_spec(m.size as nat, human), ps) + " "@ + modified_spec(m)
}

/// The styled name closing a line: directories in the directory style with
/// a `/` suffix, everything else in the plain style.
pub open spec fn styled_name_spec(m: MetaV, name: Seq<char>) -> Seq<char> {
    if m.kind == FileKind::Directory {
        "\u{1b}[34m"@ + name + "\u{1b}[0m"@ + "/"@
    } else {
        "\u{1b}[37m"@ + name + "\u{1b}[0m"@
    }
}

/// One entry's display string under the given options and column widths.
pub open spec fn entry_line_f(f: FileV, args: Args, pl: nat, ps: nat) -> Seq<
    char,
> {
    (if args.size {
        dec_str((f.meta.blocks / 2) as nat) + " "@
    } else {
        Seq::empty()
    }) + (if args.long {
        perm_line_spec(f.meta, args.human_readable, pl, ps) + " "@
    } else {
        Seq::empty()
    }) + styled_name_spec(f.meta, f.name)
}

/// One node's display string: its uniform `File` view rendered.
pub open spec fn entry_line(t: TreeV, args: Args, pl: nat, ps: nat) -> Seq<char> {
    entry_line_f(spec_as_file(t), args, pl, ps)
}

/// The display strings of a directory's entries, in order.
pub open spec fn entries_strs(s: Seq<TreeV>, args: Args, pl: nat, ps: nat) -> Seq<Seq<char>>
    decreases s.len(),
{
    if s.len() == 0 {
        Seq::empty()
    } else {
        seq![entry_line(s[0], args, pl, ps)] + entries_strs(
            s.subrange(1, s.len() as int),
            args,
            pl,
            ps,
        )
    }
}

/// The widest size column any entry asks for.
pub open spec fn size_col_width(s: Seq<TreeV>, human: bool) -> nat
    decreases s.len(),
{
    if s.len() == 0 {
        0
    } else {
        let w = pretty_spec(spec_as_file(s[0]).meta.size as nat, human).len();
        let rest = size_col_width(s.subrange(1, s.len() as int), human);
        if w >= rest {
            w
        } else {
            rest
        }
    }
}

/// The largest link count among the entries.
pub open spec fn max_nlink(s: Seq<TreeV>) -> nat
    decreases s.len(),
{
    if s.len() == 0 {
        0
    } else {
        let w = spec_as_file(s[0]).meta.nlink as nat;
        let rest = max_nlink(s.subrange(1, s.len() as int));
        if w >= rest {
            w
        } else {
            rest
        }
    }
}

/// Entry strings joined by the fixed two-space gutter.
pub open spec fn join_gutter(s: Seq<Seq<char>>) -> Seq<char>
    decreases s.len(),
{
    if s.len() == 0 {
        Seq::empty()
    } else if s.len() == 1 {
        s[0]
    } else {
        s[0] + "  "@ + join_gutter(s.subrange(1, s.len() as int))
    }
}

/// The relative path of a child directory under `in_dir`.
pub open spec fn child_path_spec(in_dir: Seq<char>, name: Seq<char>) -> Seq<char> {
    if in_dir.len() == 0 {
        name
    } else {
        in_dir + "/"@ + name
    }
}

/// The printed lines of one directory: optional header and total lines,
/// the entry body, then each recursed child directory's block, a blank
/// line before each block.
pub open spec fn dir_lines(d: DirV, in_dir: Seq<char>, args: Args) -> Seq<
    Seq<char>,
>
    decreases d, 1int,
{
    let header: Seq<Seq<char>> = if args.recursive && in_dir.len() > 0 {
        seq![in_dir + ":"@]
    } else {
        Seq::empty()
    };
    let total: Seq<Seq<char>> = if args.long {
        seq![
            "total "@ + dec_str((d.total_size / 1024) as nat) + if args.human_readable {
                "K"@
            } else {
                Seq::<char>::empty()
            },
        ]
    } else {
        Seq::empty()
    };
    let pl = link_pad_width(max_nlink(d.entries));
    let ps = size_col_width(d.entries, args.human_readable);
    let strs = entries_strs(d.entries, args, pl, ps);
    let body: Seq<Seq<char>> = if strs.len() == 0 {
        Seq::empty()
    } else if args.long || args.one_file_per_line {
        strs
    } else {
        seq![join_gutter(strs)]
    };
    let backlog: Seq<Seq<char>> = if args.recursive {
        backlog_lines(d.entries, in_dir, args)
    } else {
        Seq::empty()
    };
    header + total + body + backlog
}

/// The blocks of the recursed child directories, a blank line before each.
pub open spec fn backlog_lines(s: Seq<TreeV>, in_dir: Seq<char>, args: Args) -> Seq<Seq<char>>
    decreases s, 0int,
{
    if s.len() == 0 {
        Seq::empty()
    } else {
        let rest = backlog_lines(s.subrange(1, s.len() as int), in_dir, args);
        match s[0] {
            TreeV::Dir(d) => (seq![Seq::<char>::empty()] + dir_lines(
                d,
                child_path_spec(in_dir, d.file.name),
                args,
            )) + rest,
            _ => rest,
        }
    }
}


/// Relies on ansi_term::Colour::paint with the blue colour and on
/// ANSIString's Display: the blue foreground code, the text, the reset code.
#[verifier::external_body]
fn paint_blue(s: &str) -> (r: String)
    ensures
        r@ == "\u{1b}[34m"@ + s@ + "\u{1b}[0m"@,
{
    ansi_term::Colour::Blue.paint(s).to_string()
}

/// Relies on ansi_term::Colour::paint with the white colour and on
/// ANSIString's Display: the white foreground code, the text, the reset code.
#[verifier::external_body]
fn paint_white(s: &str) -> (r: String)
    ensures
        r@ == "\u{1b}[37m"@ + s@ + "\u{1b}[0m"@,
{
    ansi_term::Colour::White.paint(s).to_string()
}

/// `n` spaces.
fn spaces(n: usize) -> (r: String)
    ensures
        r@ == spaces_spec(n as nat),
{
    let mut r = String::new();
    let mut i: usize = 0;
    while i < n
        invariant
            i <= n,
            r@ == spaces_spec(i as nat),
        decreases n - i,
    {
        proof {
            reveal_strlit(" ");
        }
        r.append(" ");
        i = i + 1;
        proof {
            assert(r@ =~= spaces_spec(i as nat));
        }
    }
    r
}

pub open spec fn pow10(k: nat) -> nat
    decreases k,
{
    if k == 0 {
        1
    } else {
        10 * pow10((k - 1) as nat)
    }
}

proof fn lemma_num_digits_le(n: nat, k: nat)
    requires
        k >= 1,
        n < pow10(k),
    ensures
        num_digits(n) <= k,
    decreases k,
{
    if n >= 10 {
        assert(pow10(k) == 10 * pow10((k - 1) as nat));
        assert(n / 10 < pow10((k - 1) as nat)) by (nonlinear_arith)
            requires
                n < 10 * pow10((k - 1) as nat),
                n >= 10,
        ;
        lemma_num_digits_le(n / 10, (k - 1) as nat);
    }
}

proof fn lemma_num_digits_u64(n: u64)
    ensures
        num_digits(n as nat) <= 20,
{
    assert(pow10(20) == 100000000000000000000nat) by {
        reveal_with_fuel(pow10, 21);
    }
    lemma_num_digits_le(n as nat, 20);
}

proof fn lemma_num_digits_mono(a: nat, b: nat)
    requires
        a <= b,
    ensures
        num_digits(a) <= num_digits(b),
    decreases b,
{
    if a >= 10 {
        assert(a / 10 <= b / 10) by (nonlinear_arith)
            requires
                a <= b,
        ;
        lemma_num_digits_mono(a / 10, b / 10);
    }
}

/// The link-count column width: the floor of the decimal logarithm, and
/// zero for a count of zero.
fn floor_log10(n: u64) -> (r: usize)
    ensures
        r as nat == link_pad_width(n as nat),
{
    if n == 0 {
        return 0;
    }
    proof {
        lemma_num_digits_u64(n);
    }
    let mut v: u64 = n;
    let mut d: usize = 0;
    while v >= 10
        invariant
            v >= 1,
            d as nat + num_digits(v as nat) == num_digits(n as nat),
            num_digits(n as nat) <= 20,
        decreases v,
    {
        v = v / 10;
        d = d + 1;
    }
    d
}

/// One rwx triplet of the permission string, for the bits under `shift`.
pub fn get_permission_string_by_group(mode: u32, shift: u32) -> (r: String)
    requires
        shift <= 6,
    ensures
        r@ == triplet_spec(mode, shift),
{
    proof {
        reveal_strlit("r");
        reveal_strlit("w");
        reveal_strlit("x");
        reveal_strlit("-");
    }
    let mut r = String::new();
    r.append(
        if mode & (4u32 << shift) != 0 {
            "r"
        } else {
            "-"
        },
    );
    r.append(
        if mode & (2u32 << shift) != 0 {
            "w"
        } else {
            "-"
        },
    );
    r.append(
        if mode & (1u32 << shift) != 0 {
            "x"
        } else {
            "-"
        },
    );
    proof {
        assert(r@ =~= triplet_spec(mode, shift));
    }
    r
}

/// The displayed modification time, with the local recovery the renderer
/// owes: a placeholder where the platform reported none.
pub fn get_modified_string(metadata: &Metadata) -> (r: String)
    ensures
        r@ == modified_spec(metadata@),
{
    match &metadata.modified {
        Some(s) => s.clone(),
        None => String::from_str("time not supported on this platform"),
    }
}

/// The size column text of one entry, right-aligned to `padding`.
pub fn get_size_string(metadata: &Metadata, padding: usize, args: &Args) -> (r: String)
    requires
        pretty_spec(metadata@.size as nat, args.human_readable).len() <= padding as nat,
    ensures
        r@ == pad_left(pretty_spec(metadata@.size as nat, args.human_readable), padding as nat),
{
    let rep = PrettySize::from_bytes_with_style(metadata.size, args.human_readable).to_string();
    let w = rep.as_str().unicode_len();
    let mut r = spaces(padding - w);
    r.append(rep.as_str());
    r
}

/// The long-mode prefix of one entry.
pub fn permission_string(file: &File, args: &Args, padding_link: usize, padding_size: usize) -> (r:
    String)
    requires
        link_pad_width(file@.meta.nlink as nat) <= padding_link as nat,
        pretty_spec(file@.meta.size as nat, args.human_readable).len() <= padding_size as nat,
    ensures
        r@ == perm_line_spec(
            file@.meta,
            args.human_readable,
            padding_link as nat,
            padding_size as nat,
        ),
{
    proof {
        reveal_strlit("d");
        reveal_strlit("l");
        reveal_strlit("-");
        reveal_strlit(" ");
    }
    let metadata = file.metadata();
    let mut r = String::new();
    r.append(
        if metadata.is_dir() {
            "d"
        } else if metadata.is_symlink() {
            "l"
        } else {
            "-"
        },
    );
    proof {
        assert(r@ =~= seq![kind_char(file@.meta.kind)]);
    }
    let t1 = get_permission_string_by_group(metadata.mode, 6);
    r.append(t1.as_str());
    let t2 = get_permission_string_by_group(metadata.mode, 3);
    r.append(t2.as_str());
    let t3 = get_permission_string_by_group(metadata.mode, 0);
    r.append(t3.as_str());
    r.append(" ");
    let pad = spaces(padding_link - floor_log10(metadata.nlink));
    r.append(pad.as_str());
    let links = u64_to_string(metadata.nlink);
    r.append(links.as_str());
    r.append(" ");
    r.append(metadata.owner.as_str());
    r.append(" ");
    r.append(metadata.group.as_str());
    r.append(" ");
    let sz = get_size_string(metadata, padding_size, args);
    r.append(sz.as_str());
    r.append(" ");
    let md = get_modified_string(metadata);
    r.append(md.as_str());
    proof {
        assert(r@ =~= perm_line_spec(
            file@.meta,
            args.human_readable,
            padding_link as nat,
            padding_size as nat,
        ));
    }
    r
}

impl File {
    /// One entry's display string under the given options and column
    /// widths: optional block count, optional long-mode prefix, then the
    /// styled name.
    pub fn to_string(&self, args: &Args, padding_link: usize, padding_size: usize) -> (r: String)
        requires
            args.long ==> link_pad_width(self@.meta.nlink as nat) <= padding_link as nat,
            args.long ==> pretty_spec(self@.meta.size as nat, args.human_readable).len()
                <= padding_size as nat,
        ensures
            r@ == entry_line_f(self@, *args, padding_link as nat, padding_size as nat),
    {
        proof {
            reveal_strlit(" ");
            reveal_strlit("/");
        }
        let name = if self.metadata().is_dir() {
            let mut b = paint_blue(self.name().as_str());
            b.append("/");
            b
        } else {
            paint_white(self.name().as_str())
        };
        proof {
            assert(name@ =~= styled_name_spec(self@.meta, self@.name));
        }
        let mut r = String::new();
        if args.size {
            let blocks = u64_to_string(self.metadata().blocks / 2);
            r.append(blocks.as_str());
            r.append(" ");
        }
        if args.long {
            let p = permission_string(self, args, padding_link, padding_size);
            r.append(p.as_str());
            r.append(" ");
        }
        r.append(name.as_str());
        proof {
            assert(r@ =~= entry_line_f(self@, *args, padding_link as nat, padding_size as nat));
        }
        r
    }
}


/// The character sequences of a sequence of strings, element-wise.
pub open spec fn strs_view(s: Seq<String>) -> Seq<Seq<char>>
    decreases s.len(),
{
    if s.len() == 0 {
        Seq::empty()
    } else {
        seq![s[0]@] + strs_view(s.subrange(1, s.len() as int))
    }
}

/// Element-wise description of `strs_view`.
pub proof fn lemma_strs_view(s: Seq<String>)
    ensures
        strs_view(s).len() == s.len(),
        forall|i: int| 0 <= i < s.len() ==> #[trigger] strs_view(s)[i] == s[i]@,
    decreases s.len(),
{
    if s.len() > 0 {
        let sub = s.subrange(1, s.len() as int);
        lemma_strs_view(sub);
        assert forall|i: int| 0 <= i < s.len() implies #[trigger] strs_view(s)[i] == s[i]@ by {
            if i > 0 {
                assert(sub[i - 1] == s[i]);
                assert(strs_view(s)[i] == strs_view(sub)[i - 1]);
            }
        }
    }
}

proof fn lemma_strs_view_concat(a: Seq<String>, b: Seq<String>)
    ensures
        strs_view(a + b) == strs_view(a) + strs_view(b),
    decreases a.len(),
{
    if a.len() == 0 {
        assert(a + b =~= b);
        assert(strs_view(a) + strs_view(b) =~= strs_view(b));
    } else {
        let sub = a.subrange(1, a.len() as int);
        assert((a + b).subrange(1, (a + b).len() as int) =~= sub + b);
        lemma_strs_view_concat(sub, b);
        assert((a + b)[0] == a[0]);
        assert(seq![a[0]@] + (strs_view(sub) + strs_view(b)) =~= (seq![a[0]@] + strs_view(sub))
            + strs_view(b));
    }
}

/// Every entry fits the columns the measurement pass chose.
proof fn lemma_width_bounds(s: Seq<TreeV>, human: bool)
    ensures
        forall|i: int|
            0 <= i < s.len() ==> pretty_spec(spec_as_file(#[trigger] s[i]).meta.size as nat,
            human).len() <= size_col_width(s, human),
        forall|i: int|
            0 <= i < s.len() ==> spec_as_file(#[trigger] s[i]).meta.nlink as nat <= max_nlink(s),
    decreases s.len(),
{
    if s.len() > 0 {
        let sub = s.subrange(1, s.len() as int);
        lemma_width_bounds(sub, human);
        assert forall|i: int|
            0 <= i < s.len() implies pretty_spec(
            spec_as_file(#[trigger] s[i]).meta.size as nat,
            human,
        ).len() <= size_col_width(s, human) && spec_as_file(s[i]).meta.nlink as nat <= max_nlink(
            s,
        ) by {
            if i > 0 {
                assert(sub[i - 1] == s[i]);
            }
        }
    }
}

/// The measurement pass: the widest size string and the largest link count
/// among the entries.
fn measure(entries: &Vec<FileTree>, human: bool) -> (r: (usize, u64))
    ensures
        r.0 as nat == size_col_width(seq_tree_view(entries@), human),
        r.1 as nat == max_nlink(seq_tree_view(entries@)),
{
    let ghost ev = seq_tree_view(entries@);
    let n = entries.len();
    proof {
        lemma_seq_tree_view(entries@);
    }
    let mut w: usize = 0;
    let mut ml: u64 = 0;
    let mut i: usize = n;
    proof {
        assert(ev.subrange(n as int, n as int) =~= Seq::<TreeV>::empty());
    }
    while i > 0
        invariant
            i <= n,
            n == entries@.len(),
            ev == seq_tree_view(entries@),
            ev.len() == n,
            forall|j: int|
                0 <= j < n ==> ev[j] == tree_view(#[trigger] entries@[j]),
            w as nat == size_col_width(ev.subrange(i as int, n as int), human),
            ml as nat == max_nlink(ev.subrange(i as int, n as int)),
        decreases i,
    {
        i = i - 1;
        let f = entries[i].unwrap_as_file();
        let rep = PrettySize::from_bytes_with_style(f.metadata().size, human).to_string();
        let wl = rep.as_str().unicode_len();
        if wl > w {
            w = wl;
        }
        if f.metadata().nlink > ml {
            ml = f.metadata().nlink;
        }
        proof {
            let cur = ev.subrange(i as int, n as int);
            assert(cur[0] == ev[i as int]);
            assert(cur.subrange(1, cur.len() as int) =~= ev.subrange(i as int + 1, n as int));
        }
    }
    proof {
        assert(ev.subrange(0, n as int) =~= ev);
    }
    (w, ml)
}

proof fn lemma_join_snoc(s: Seq<Seq<char>>, x: Seq<char>)
    requires
        s.len() >= 1,
    ensures
        join_gutter(s.push(x)) == join_gutter(s) + "  "@ + x,
    decreases s.len(),
{
    reveal_with_fuel(join_gutter, 3);
    if s.len() == 1 {
        assert(s.push(x)[0] == s[0]);
        assert(s.push(x).subrange(1, 2) =~= seq![x]);
        assert(join_gutter(s.push(x)) =~= join_gutter(s) + "  "@ + x);
    } else {
        let sub = s.subrange(1, s.len() as int);
        assert(s.push(x).subrange(1, s.len() as int + 1) =~= sub.push(x));
        lemma_join_snoc(sub, x);
        assert(s.push(x)[0] == s[0]);
        assert(join_gutter(s.push(x)) == s[0] + "  "@ + join_gutter(sub.push(x)));
        assert(s[0] + "  "@ + (join_gutter(sub) + "  "@ + x) =~= (s[0] + "  "@ + join_gutter(sub))
            + "  "@ + x);
        assert(join_gutter(s.push(x)) =~= join_gutter(s) + "  "@ + x);
    }
}

/// The compact body line: entry strings joined by two spaces.
fn join_exec(strs: &Vec<String>) -> (r: String)
    requires
        strs@.len() > 0,
    ensures
        r@ == join_gutter(strs_view(strs@)),
{
    let ghost sv = strs_view(strs@);
    proof {
        lemma_strs_view(strs@);
    }
    let mut acc = strs[0].clone();
    let mut j: usize = 1;
    proof {
        assert(sv.subrange(0, 1) =~= seq![sv[0]]);
        assert(join_gutter(sv.subrange(0, 1)) == sv[0]);
    }
    while j < strs.len()
        invariant
            1 <= j <= strs@.len(),
            sv == strs_view(strs@),
            sv.len() == strs@.len(),
            forall|k: int| 0 <= k < strs@.len() ==> sv[k] == (#[trigger] strs@[k])@,
            acc@ == join_gutter(sv.subrange(0, j as int)),
        decreases strs@.len() - j,
    {
        proof {
            reveal_strlit("  ");
        }
        acc.append("  ");
        acc.append(strs[j].as_str());
        proof {
            let pre = sv.subrange(0, j as int);
            lemma_join_snoc(pre, sv[j as int]);
            assert(pre.push(sv[j as int]) =~= sv.subrange(0, j as int + 1));
        }
        j = j + 1;
    }
    proof {
        assert(sv.subrange(0, strs@.len() as int) =~= sv);
    }
    acc
}

/// The lines of one directory's listing: header and total where asked,
/// the measured and formatted entry body, then the recursed blocks.
fn ls_print_dir(directory: &Directory, in_dir: String, args: &Args) -> (r: Vec<String>)
    ensures
        strs_view(r@) == dir_lines(directory@, in_dir@, *args),
    decreases *directory,
{
    let ghost dv = directory@;
    let ghost ev = seq_tree_view(directory.entries@);
    let ghost headerv: Seq<Seq<char>> = if args.recursive && in_dir@.len() > 0 {
        seq![in_dir@ + ":"@]
    } else {
        Seq::empty()
    };
    let ghost totalv: Seq<Seq<char>> = if args.long {
        seq![
            "total "@ + dec_str((dv.total_size / 1024) as nat) + if args.human_readable {
                "K"@
            } else {
                Seq::<char>::empty()
            },
        ]
    } else {
        Seq::empty()
    };
    let mut lines: Vec<String> = Vec::new();
    if args.recursive && !in_dir.as_str().is_empty() {
        proof {
            reveal_strlit(":");
        }
        let mut h = in_dir.clone();
        h.append(":");
        lines.push(h);
    }
    if args.long {
        proof {
            reveal_strlit("total ");
            reveal_strlit("K");
        }
        let mut t = String::from_str("total ");
        let ts = u64_to_string(directory.total_size / 1024);
        t.append(ts.as_str());
        if args.human_readable {
            t.append("K");
        }
        lines.push(t);
    }
    proof {
        lemma_strs_view(lines@);
        assert(strs_view(lines@) =~= headerv + totalv);
    }
    let (ps, ml) = measure(&directory.entries, args.human_readable);
    let pl = floor_log10(ml);
    proof {
        lemma_seq_tree_view(directory.entries@);
    }
    let n = directory.entries.len();
    let mut strs: Vec<String> = Vec::new();
    let mut i: usize = 0;
    proof {
        assert(strs_view(strs@) =~= Seq::<Seq<char>>::empty());
        assert(ev.subrange(0, 0) =~= Seq::<TreeV>::empty());
    }
    while i < n
        invariant
            i <= n,
            n == directory.entries@.len(),
            ev == seq_tree_view(directory.entries@),
            ev.len() == n,
            forall|j: int|
                0 <= j < n ==> ev[j] == tree_view(
                    #[trigger] directory.entries@[j],
                ),
            pl as nat == link_pad_width(max_nlink(ev)),
            ps as nat == size_col_width(ev, args.human_readable),
            strs@.len() == i,
            strs_view(strs@) == entries_strs(ev.subrange(0, i as int), *args, pl as nat,
            ps as nat),
        decreases n - i,
    {
        proof {
            lemma_width_bounds(ev, args.human_readable);
            lemma_num_digits_mono(spec_as_file(ev[i as int]).meta.nlink as nat, max_nlink(ev));
        }
        let f = directory.entries[i].unwrap_as_file();
        proof {
            assert(f@ == spec_as_file(ev[i as int]));
        }
        let line = f.to_string(args, pl, ps);
        let ghost strs_pre = strs@;
        strs.push(line);
        proof {
            lemma_strs_view(strs_pre);
            lemma_strs_view(strs@);
            assert(strs@ == strs_pre.push(line));
            assert(strs_view(strs@) =~= strs_view(strs_pre).push(line@));
            let pre = ev.subrange(0, i as int);
            lemma_entries_strs_snoc(pre, ev[i as int], *args, pl as nat, ps as nat);
            assert(pre.push(ev[i as int]) =~= ev.subrange(0, i as int + 1));
        }
        i = i + 1;
    }
    proof {
        assert(ev.subrange(0, n as int) =~= ev);
    }
    let ghost strsv = entries_strs(ev, *args, pl as nat, ps as nat);
    let ghost bodyv: Seq<Seq<char>> = if strsv.len() == 0 {
        Seq::empty()
    } else if args.long || args.one_file_per_line {
        strsv
    } else {
        seq![join_gutter(strsv)]
    };
    proof {
        lemma_strs_view(strs@);
    }
    if strs.len() > 0 {
        if args.long || args.one_file_per_line {
            let ghost lines_pre = lines@;
            let ghost strs_all = strs@;
            let mut strs2 = strs;
            lines.append(&mut strs2);
            proof {
                lemma_strs_view_concat(lines_pre, strs_all);
                assert(strs_view(lines@) =~= headerv + totalv + bodyv);
            }
        } else {
            let joined = join_exec(&strs);
            let ghost lines_pre = lines@;
            lines.push(joined);
            proof {
                lemma_strs_view(lines_pre);
                lemma_strs_view(lines@);
                assert(lines@ == lines_pre.push(joined));
                assert(strs_view(lines@) =~= strs_view(lines_pre).push(joined@));
                assert(strs_view(lines@) =~= headerv + totalv + bodyv);
            }
        }
    }
    proof {
        assert(strs_view(lines@) =~= headerv + totalv + bodyv);
    }
    let ghost before_backlog = strs_view(lines@);
    if args.recursive {
        let mut i: usize = 0;
        while i < n
            invariant
                i <= n,
                n == directory.entries@.len(),
                ev == seq_tree_view(directory.entries@),
                ev.len() == n,
                forall|j: int|
                    0 <= j < n ==> ev[j] == tree_view(
                        #[trigger] directory.entries@[j],
                    ),
                strs_view(lines@) + backlog_lines(ev.subrange(i as int, n as int), in_dir@, *args)
                    == before_backlog + backlog_lines(ev, in_dir@, *args),
            decreases n - i,
        {
            let ghost cur = ev.subrange(i as int, n as int);
            proof {
                assert(cur[0] == ev[i as int]);
                assert(cur.subrange(1, cur.len() as int) =~= ev.subrange(i as int + 1, n as int));
            }
            match &directory.entries[i] {
                FileTree::DirNode(sub) => {
                    proof {
                        assert(tree_view(directory.entries@[i as int])
                            == TreeV::Dir(sub@));
                        assert(decreases_to!(*directory => directory.entries));
                        assert(decreases_to!(directory.entries => directory.entries@));
                        assert(decreases_to!(directory.entries@ => directory.entries@[i as int]));
                        assert(decreases_to!(directory.entries@[i as int] => *sub));
                    }
                    let cp = if in_dir.as_str().is_empty() {
                        sub.file.name.clone()
                    } else {
                        proof {
                            reveal_strlit("/");
                        }
                        let mut c = in_dir.clone();
                        c.append("/");
                        c.append(sub.file.name.as_str());
                        c
                    };
                    proof {
                        assert(cp@ == child_path_spec(in_dir@, sub@.file.name));
                    }
                    let ghost lines_pre = lines@;
                    lines.push(String::new());
                    let ghost lines_mid = lines@;
                    let mut block = ls_print_dir(sub, cp, args);
                    let ghost block_v = block@;
                    lines.append(&mut block);
                    proof {
                        lemma_strs_view(lines_pre);
                        lemma_strs_view(lines_mid);
                        lemma_strs_view_concat(lines_mid, block_v);
                        assert(strs_view(lines_mid) =~= strs_view(lines_pre) + seq![
                            Seq::<char>::empty(),
                        ]);
                        assert(strs_view(lines@) =~= strs_view(lines_pre) + (seq![
                            Seq::<char>::empty(),
                        ] + strs_view(block_v)));
                    }
                },
                _ => {},
            }
            proof {
                assert(strs_view(lines@) + backlog_lines(
                    ev.subrange(i as int + 1, n as int),
                    in_dir@,
                    *args,
                ) =~= before_backlog + backlog_lines(ev, in_dir@, *args));
            }
            i = i + 1;
        }
        proof {
            assert(ev.subrange(n as int, n as int) =~= Seq::<TreeV>::empty());
            assert(strs_view(lines@) =~= before_backlog + backlog_lines(ev, in_dir@, *args));
        }
    }
    proof {
        assert(dv.entries == ev);
        assert(strs_view(lines@) =~= dir_lines(dv, in_dir@, *args));
    }
    lines
}

/// One entry more at the end of the body extends the entry strings by its
/// line.
proof fn lemma_entries_strs_snoc(s: Seq<TreeV>, x: TreeV, args: Args, pl: nat, ps: nat)
    ensures
        entries_strs(s.push(x), args, pl, ps) == entries_strs(s, args, pl, ps).push(
            entry_line(x, args, pl, ps),
        ),
    decreases s.len(),
{
    reveal_with_fuel(entries_strs, 3);
    if s.len() == 0 {
        assert(s.push(x)[0] == x);
        assert(s.push(x).subrange(1, 1) =~= Seq::<TreeV>::empty());
        assert(entries_strs(s.push(x), args, pl, ps) =~= entries_strs(s, args, pl, ps).push(
            entry_line(x, args, pl, ps),
        ));
    } else {
        let sub = s.subrange(1, s.len() as int);
        assert(s.push(x).subrange(1, s.len() as int + 1) =~= sub.push(x));
        lemma_entries_strs_snoc(sub, x, args, pl, ps);
        assert(s.push(x)[0] == s[0]);
        assert(entries_strs(s.push(x), args, pl, ps) =~= entries_strs(s, args, pl, ps).push(
            entry_line(x, args, pl, ps),
        ));
    }
}

impl FileTree {
    /// Renders the whole listing: the printed lines in order, and nothing
    /// at all for a non-directory root.
    pub fn ls_print(tree: &FileTree, args: &Args) -> (r: Vec<String>)
        ensures
            tree@ is Dir ==> strs_view(r@) == dir_lines(
                tree@->Dir_0,
                tree@->Dir_0.file.name,
                *args,
            ),
            !(tree@ is Dir) ==> r@.len() == 0,
    {
        match tree {
            FileTree::DirNode(dir) => ls_print_dir(dir, dir.file.name.clone(), args),
            _ => Vec::new(),
        }
    }
}

} // verus!
