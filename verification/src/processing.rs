use crate::filetree::{contrib_count, contrib_size, dir_wf, lemma_seq_tree_view, seq_tree_view, spec_as_file, sum_counts, sum_sizes, tree_view, tree_wf, DirV, Directory, File, FileKind, FileTree, Metadata, TreeV};
use crate::Args;
use vstd::prelude::*;
use vstd::string::StrSliceExecFns;
use vstd::string::StringExecFns;

verus! {

/// Why a sort request was refused.
#[derive(Debug, Clone, Copy, PartialEq, Eq, Structural)]
pub enum SortError {
    NotADirectory,
}

/// Named result of Unicode lowercasing: a function of the characters alone.
pub uninterp spec fn lower_of(s: Seq<char>) -> Seq<char>;

/// Relies on str::to_lowercase from std: the lowercase mapping of the
/// characters, depending on nothing but them.
#[verifier::external_body]
fn to_lowercase(s: &str) -> (r: String)
    ensures
        r@ == lower_of(s@),
{
    s.to_lowercase()
}

/// An ASCII lowercase letter.
pub open spec fn is_lower(c: char) -> bool {
    97 <= (c as int) && (c as int) <= 122
}

pub open spec fn has_lower(s: Seq<char>) -> bool
    decreases s.len(),
{
    s.len() > 0 && (is_lower(s[0]) || has_lower(s.subrange(1, s.len() as int)))
}

/// The comparator key of a lowercased name: everything before its first
/// ASCII lowercase letter is stripped; a name without one is kept whole.
pub open spec fn strip_key(s: Seq<char>) -> Seq<char>
    decreases s.len(),
{
    if !has_lower(s) {
        s
    } else if is_lower(s[0]) {
        s
    } else {
        strip_key(s.subrange(1, s.len() as int))
    }
}

proof fn lemma_has_lower_iff(s: Seq<char>)
    ensures
        has_lower(s) <==> exists|j: int| 0 <= j < s.len() && is_lower(s[j]),
    decreases s.len(),
{
    if s.len() > 0 {
        let sub = s.subrange(1, s.len() as int);
        lemma_has_lower_iff(sub);
        if exists|j: int| 0 <= j < s.len() && is_lower(s[j]) {
            let j = choose|j: int| 0 <= j < s.len() && is_lower(s[j]);
            if j > 0 {
                assert(sub[j - 1] == s[j]);
            }
        }
        if has_lower(sub) {
            let j = choose|j: int| 0 <= j < sub.len() && is_lower(sub[j]);
            assert(s[j + 1] == sub[j]);
        }
    }
}

/// Where the scan for the first lowercase letter stops, the key begins.
proof fn lemma_strip_key_at(s: Seq<char>, p: int)
    requires
        0 <= p <= s.len(),
        forall|j: int| 0 <= j < p ==> !is_lower(s[j]),
        p < s.len() ==> is_lower(s[p]),
    ensures
        strip_key(s) == if p == s.len() {
            s
        } else {
            s.subrange(p, s.len() as int)
        },
    decreases p,
{
    lemma_has_lower_iff(s);
    if p == s.len() {
        assert(!has_lower(s));
    } else if p == 0 {
        assert(has_lower(s));
        assert(s.subrange(0, s.len() as int) =~= s);
    } else {
        assert(has_lower(s));
        assert(!is_lower(s[0]));
        let sub = s.subrange(1, s.len() as int);
        assert(forall|j: int| 0 <= j < p - 1 ==> sub[j] == s[j + 1] && !is_lower(#[trigger] sub[j]));
        assert(sub[p - 1] == s[p]);
        lemma_strip_key_at(sub, p - 1);
        assert(sub.subrange(p - 1, sub.len() as int) =~= s.subrange(p, s.len() as int));
    }
}

/// The comparator key of a name, as the sorter sees it.
pub open spec fn name_key(name: Seq<char>) -> Seq<char> {
    strip_key(lower_of(name))
}

/// Computes the comparator key: the lowercased name with everything before
/// its first ASCII lowercase letter stripped.
pub fn prepare_name_for_compare(name: &str) -> (r: String)
    ensures
        r@ == name_key(name@),
{
    let lowered = to_lowercase(name);
    let n = lowered.as_str().unicode_len();
    let mut i: usize = 0;
    while i < n
        invariant
            i <= n,
            n == lowered@.len(),
            lowered@ == lower_of(name@),
            forall|j: int| 0 <= j < i ==> !is_lower(lowered@[j]),
        decreases n - i,
    {
        let c = lowered.as_str().get_char(i);
        let u = c as u32;
        if 97 <= u && u <= 122 {
            proof {
                lemma_strip_key_at(lowered@, i as int);
            }
            let tail = lowered.as_str().substring_char(i, n);
            return String::from_str(tail);
        }
        i = i + 1;
    }
    proof {
        lemma_strip_key_at(lowered@, n as int);
    }
    lowered
}

/// Lexicographic order on character sequences, by scalar value: the order
/// `str` comparison gives.
pub open spec fn lex_le(a: Seq<char>, b: Seq<char>) -> bool
    decreases a.len(),
{
    if a.len() == 0 {
        true
    } else if b.len() == 0 {
        false
    } else if (a[0] as int) < (b[0] as int) {
        true
    } else if (a[0] as int) > (b[0] as int) {
        false
    } else {
        lex_le(a.subrange(1, a.len() as int), b.subrange(1, b.len() as int))
    }
}

/// The comparator order is reflexive.
pub proof fn lemma_lex_le_refl(a: Seq<char>)
    ensures
        lex_le(a, a),
    decreases a.len(),
{
    if a.len() > 0 {
        lemma_lex_le_refl(a.subrange(1, a.len() as int));
    }
}

/// The comparator order is total: any two keys compare one way or the
/// other. With reflexivity and transitivity this makes it a valid total
/// preorder, so the sorter is defined on every entry list.
pub proof fn lemma_lex_le_total(a: Seq<char>, b: Seq<char>)
    ensures
        lex_le(a, b) || lex_le(b, a),
    decreases a.len(),
{
    if a.len() > 0 && b.len() > 0 && a[0] == b[0] {
        lemma_lex_le_total(a.subrange(1, a.len() as int), b.subrange(1, b.len() as int));
    }
}

/// The comparator order is transitive.
pub proof fn lemma_lex_le_trans(a: Seq<char>, b: Seq<char>, c: Seq<char>)
    requires
        lex_le(a, b),
        lex_le(b, c),
    ensures
        lex_le(a, c),
    decreases a.len(),
{
    if a.len() > 0 && b.len() > 0 && c.len() > 0 && a[0] == b[0] && b[0] == c[0] {
        lemma_lex_le_trans(
            a.subrange(1, a.len() as int),
            b.subrange(1, b.len() as int),
            c.subrange(1, c.len() as int),
        );
    }
}

/// Keys ordered both ways are the same key: ties under the comparator are
/// exactly the equal keys, which the stability law speaks of.
pub proof fn lemma_lex_le_antisym(a: Seq<char>, b: Seq<char>)
    requires
        lex_le(a, b),
        lex_le(b, a),
    ensures
        a == b,
    decreases a.len(),
{
    if a.len() > 0 && b.len() > 0 && a[0] == b[0] {
        lemma_lex_le_antisym(a.subrange(1, a.len() as int), b.subrange(1, b.len() as int));
        assert(a =~= seq![a[0]] + a.subrange(1, a.len() as int));
        assert(b =~= seq![b[0]] + b.subrange(1, b.len() as int));
    }
}

/// Compares two strings in the lexicographic scalar-value order.
fn str_lex_le(a: &str, b: &str) -> (r: bool)
    ensures
        r == lex_le(a@, b@),
    decreases a@.len(),
{
    let na = a.unicode_len();
    let nb = b.unicode_len();
    if na == 0 {
        true
    } else if nb == 0 {
        false
    } else {
        let ca = a.get_char(0);
        let cb = b.get_char(0);
        if (ca as u32) < (cb as u32) {
            true
        } else if (ca as u32) > (cb as u32) {
            false
        } else {
            str_lex_le(a.substring_char(1, na), b.substring_char(1, nb))
        }
    }
}

/// The comparator the sorter orders by: keys compared lexicographically.
pub open spec fn sort_key(t: TreeV) -> Seq<char> {
    name_key(spec_as_file(t).name)
}

pub open spec fn tree_le(a: TreeV, b: TreeV) -> bool {
    lex_le(sort_key(a), sort_key(b))
}

fn tree_le_exec(a: &FileTree, b: &FileTree) -> (r: bool)
    ensures
        r == tree_le(a@, b@),
{
    let ka = prepare_name_for_compare(a.unwrap_as_file().name().as_str());
    let kb = prepare_name_for_compare(b.unwrap_as_file().name().as_str());
    str_lex_le(ka.as_str(), kb.as_str())
}



/// Where the insertion scan of a stable insertion step puts `x`: after
/// every element whose key is less than or equal to its own.
pub open spec fn insert_sorted(x: TreeV, s: Seq<TreeV>) -> Seq<TreeV>
    decreases s.len(),
{
    if s.len() == 0 {
        seq![x]
    } else if tree_le(s[0], x) {
        seq![s[0]] + insert_sorted(x, s.subrange(1, s.len() as int))
    } else {
        seq![x] + s
    }
}

/// The stable sort of a sequence of siblings: each element inserted in
/// turn, later elements after equal-keyed earlier ones.
pub open spec fn sort_seq(s: Seq<TreeV>) -> Seq<TreeV>
    decreases s.len(),
{
    if s.len() == 0 {
        s
    } else {
        insert_sorted(s.last(), sort_seq(s.drop_last()))
    }
}

/// Each sibling's own subtree sorted, sibling order kept.
pub open spec fn map_sort(s: Seq<TreeV>) -> Seq<TreeV>
    decreases s,
{
    if s.len() == 0 {
        s
    } else {
        seq![sort_tree_v(s[0])] + map_sort(s.subrange(1, s.len() as int))
    }
}

/// The fully sorted version of a tree: every directory's children sorted,
/// depth first; everything else unchanged.
pub open spec fn sort_tree_v(t: TreeV) -> TreeV
    decreases t,
{
    match t {
        TreeV::Dir(d) => TreeV::Dir(
            DirV {
                file: d.file,
                entries: sort_seq(map_sort(d.entries)),
                total_size: d.total_size,
                count: d.count,
            },
        ),
        _ => t,
    }
}

/// Pairwise order under the comparator.
pub open spec fn sorted(s: Seq<TreeV>) -> bool {
    forall|i: int, j: int| 0 <= i < j < s.len() ==> tree_le(s[i], s[j])
}

/// Every element of an insertion result is the inserted one or one of the
/// sequence it went into.
proof fn lemma_insert_elems(x: TreeV, s: Seq<TreeV>)
    ensures
        insert_sorted(x, s).len() == s.len() + 1,
        forall|k: int|
            0 <= k < insert_sorted(x, s).len() ==> (#[trigger] insert_sorted(x, s)[k] == x
                || s.contains(insert_sorted(x, s)[k])),
    decreases s.len(),
{
    let r = insert_sorted(x, s);
    if s.len() == 0 {
    } else if tree_le(s[0], x) {
        let sub = s.subrange(1, s.len() as int);
        lemma_insert_elems(x, sub);
        let r2 = insert_sorted(x, sub);
        assert forall|k: int| 0 <= k < r.len() implies (#[trigger] r[k] == x || s.contains(
            r[k],
        )) by {
            if k == 0 {
                assert(r[0] == s[0]);
                assert(s.contains(s[0]));
            } else {
                assert(r[k] == r2[k - 1]);
                if r2[k - 1] != x {
                    let m = choose|m: int| 0 <= m < sub.len() && sub[m] == r2[k - 1];
                    assert(s[m + 1] == sub[m]);
                    assert(s.contains(r[k]));
                }
            }
        }
    } else {
        assert forall|k: int| 0 <= k < r.len() implies (#[trigger] r[k] == x || s.contains(
            r[k],
        )) by {
            if k > 0 {
                assert(r[k] == s[k - 1]);
                assert(s.contains(s[k - 1]));
            }
        }
    }
}

/// Insertion keeps the sequence sorted.
proof fn lemma_insert_sorted_sorted(x: TreeV, s: Seq<TreeV>)
    requires
        sorted(s),
    ensures
        sorted(insert_sorted(x, s)),
    decreases s.len(),
{
    let r = insert_sorted(x, s);
    if s.len() == 0 {
    } else if tree_le(s[0], x) {
        let sub = s.subrange(1, s.len() as int);
        assert(forall|i: int, j: int| 0 <= i < j < sub.len() ==> tree_le(#[trigger] sub[i], #[trigger] sub[j]));
        lemma_insert_sorted_sorted(x, sub);
        lemma_insert_elems(x, sub);
        let r2 = insert_sorted(x, sub);
        assert forall|i: int, j: int| 0 <= i < j < r.len() implies tree_le(
            #[trigger] r[i],
            #[trigger] r[j],
        ) by {
            if i == 0 {
                assert(r[0] == s[0]);
                assert(r[j] == r2[j - 1]);
                if r2[j - 1] == x {
                    assert(tree_le(s[0], x));
                } else {
                    let m = choose|m: int| 0 <= m < sub.len() && sub[m] == r2[j - 1];
                    assert(s[m + 1] == sub[m]);
                    assert(tree_le(s[0], s[m + 1]));
                }
            } else {
                assert(r[i] == r2[i - 1]);
                assert(r[j] == r2[j - 1]);
            }
        }
    } else {
        lemma_lex_le_total(sort_key(s[0]), sort_key(x));
        assert forall|i: int, j: int| 0 <= i < j < r.len() implies tree_le(
            #[trigger] r[i],
            #[trigger] r[j],
        ) by {
            if i == 0 {
                assert(r[j] == s[j - 1]);
                if j == 1 {
                    assert(tree_le(x, s[0]));
                } else {
                    assert(tree_le(s[0], s[j - 1]));
                    lemma_lex_le_trans(sort_key(x), sort_key(s[0]), sort_key(s[j - 1]));
                }
            } else {
                assert(r[i] == s[i - 1]);
                assert(r[j] == s[j - 1]);
            }
        }
    }
}

/// The stable sort sorts.
pub proof fn lemma_sort_seq_sorted(s: Seq<TreeV>)
    ensures
        sorted(sort_seq(s)),
    decreases s.len(),
{
    if s.len() > 0 {
        lemma_sort_seq_sorted(s.drop_last());
        lemma_insert_sorted_sorted(s.last(), sort_seq(s.drop_last()));
    }
}

/// Inserting an element no element exceeds appends it.
proof fn lemma_insert_at_end(x: TreeV, s: Seq<TreeV>)
    requires
        forall|i: int| 0 <= i < s.len() ==> tree_le(#[trigger] s[i], x),
    ensures
        insert_sorted(x, s) == s.push(x),
    decreases s.len(),
{
    if s.len() == 0 {
        assert(insert_sorted(x, s) =~= s.push(x));
    } else {
        let sub = s.subrange(1, s.len() as int);
        assert(forall|i: int| 0 <= i < sub.len() ==> tree_le(#[trigger] sub[i], x));
        lemma_insert_at_end(x, sub);
        assert(insert_sorted(x, s) =~= s.push(x));
    }
}

/// A sorted sequence is its own stable sort.
pub proof fn lemma_sort_seq_of_sorted(s: Seq<TreeV>)
    requires
        sorted(s),
    ensures
        sort_seq(s) == s,
    decreases s.len(),
{
    if s.len() > 0 {
        let d = s.drop_last();
        assert(forall|i: int, j: int| 0 <= i < j < d.len() ==> tree_le(#[trigger] d[i], #[trigger] d[j]));
        lemma_sort_seq_of_sorted(d);
        assert forall|i: int| 0 <= i < d.len() implies tree_le(#[trigger] d[i], s.last()) by {
            assert(d[i] == s[i]);
        }
        lemma_insert_at_end(s.last(), d);
        assert(d.push(s.last()) =~= s);
    }
}

/// Sorting is idempotent: the stable sort of a stable sort is unchanged.
pub proof fn lemma_sort_seq_idempotent(s: Seq<TreeV>)
    ensures
        sort_seq(sort_seq(s)) == sort_seq(s),
{
    lemma_sort_seq_sorted(s);
    lemma_sort_seq_of_sorted(sort_seq(s));
}

/// The subsequence of entries whose comparator key is `k`, in order.
pub open spec fn key_filter(s: Seq<TreeV>, k: Seq<char>) -> Seq<TreeV>
    decreases s.len(),
{
    if s.len() == 0 {
        s
    } else {
        let rest = key_filter(s.subrange(1, s.len() as int), k);
        if sort_key(s[0]) == k {
            seq![s[0]] + rest
        } else {
            rest
        }
    }
}

proof fn lemma_key_filter_single(x: TreeV, k: Seq<char>)
    ensures
        key_filter(seq![x], k) == if sort_key(x) == k {
            seq![x]
        } else {
            Seq::<TreeV>::empty()
        },
{
    reveal_with_fuel(key_filter, 2);
    assert(seq![x].subrange(1, 1) =~= Seq::<TreeV>::empty());
    if sort_key(x) == k {
        assert(key_filter(seq![x], k) =~= seq![x]);
    } else {
        assert(key_filter(seq![x], k) =~= Seq::<TreeV>::empty());
    }
}

proof fn lemma_key_filter_concat(a: Seq<TreeV>, b: Seq<TreeV>, k: Seq<char>)
    ensures
        key_filter(a + b, k) == key_filter(a, k) + key_filter(b, k),
    decreases a.len(),
{
    if a.len() == 0 {
        assert(a + b =~= b);
        assert(key_filter(a, k) + key_filter(b, k) =~= key_filter(b, k));
    } else {
        let sub = a.subrange(1, a.len() as int);
        assert((a + b).subrange(1, (a + b).len() as int) =~= sub + b);
        lemma_key_filter_concat(sub, b, k);
        assert((a + b)[0] == a[0]);
        if sort_key(a[0]) == k {
            assert(seq![a[0]] + (key_filter(sub, k) + key_filter(b, k)) =~= (seq![a[0]]
                + key_filter(sub, k)) + key_filter(b, k));
        }
    }
}

proof fn lemma_key_filter_all_ne(s: Seq<TreeV>, k: Seq<char>)
    requires
        forall|i: int| 0 <= i < s.len() ==> sort_key(#[trigger] s[i]) != k,
    ensures
        key_filter(s, k) == Seq::<TreeV>::empty(),
    decreases s.len(),
{
    if s.len() > 0 {
        let sub = s.subrange(1, s.len() as int);
        assert(forall|i: int| 0 <= i < sub.len() ==> sort_key(#[trigger] sub[i]) != k);
        lemma_key_filter_all_ne(sub, k);
    }
}

/// One stable insertion step keeps every key's subsequence, appending the
/// new element to its own key's.
proof fn lemma_insert_filter(x: TreeV, s: Seq<TreeV>, k: Seq<char>)
    requires
        sorted(s),
    ensures
        key_filter(insert_sorted(x, s), k) == if sort_key(x) == k {
            key_filter(s, k).push(x)
        } else {
            key_filter(s, k)
        },
    decreases s.len(),
{
    let r = insert_sorted(x, s);
    if s.len() == 0 {
        lemma_key_filter_single(x, k);
        assert(r =~= seq![x]);
        if sort_key(x) == k {
            assert(key_filter(r, k) =~= key_filter(s, k).push(x));
        } else {
            assert(key_filter(r, k) =~= key_filter(s, k));
        }
    } else if tree_le(s[0], x) {
        let sub = s.subrange(1, s.len() as int);
        assert(forall|i: int, j: int| 0 <= i < j < sub.len() ==> tree_le(#[trigger] sub[i], #[trigger] sub[j]));
        lemma_insert_filter(x, sub, k);
        let r2 = insert_sorted(x, sub);
        assert(r.subrange(1, r.len() as int) =~= r2);
        assert(r[0] == s[0]);
        if sort_key(x) == k {
            if sort_key(s[0]) == k {
                assert(seq![s[0]] + key_filter(sub, k).push(x) =~= (seq![s[0]] + key_filter(
                    sub,
                    k,
                )).push(x));
            }
            assert(key_filter(r, k) =~= key_filter(s, k).push(x));
        } else {
            assert(key_filter(r, k) =~= key_filter(s, k));
        }
    } else {
        lemma_lex_le_total(sort_key(s[0]), sort_key(x));
        assert(r =~= seq![x] + s);
        assert(r.subrange(1, r.len() as int) =~= s);
        if sort_key(x) == k {
            assert forall|i: int| 0 <= i < s.len() implies sort_key(#[trigger] s[i]) != k by {
                if sort_key(s[i]) == k {
                    lemma_lex_le_refl(sort_key(x));
                    assert(tree_le(s[i], x));
                    if i > 0 {
                        assert(tree_le(s[0], s[i]));
                        lemma_lex_le_trans(sort_key(s[0]), sort_key(s[i]), sort_key(x));
                    }
                    assert(tree_le(s[0], x));
                }
            }
            lemma_key_filter_all_ne(s, k);
            assert(key_filter(r, k) =~= key_filter(s, k).push(x));
        } else {
            assert(key_filter(r, k) =~= key_filter(s, k));
        }
    }
}

/// Sorting is stable: for every comparator key, the subsequence of entries
/// with that key is exactly what it was before sorting, in the same order.
pub proof fn lemma_sort_stable(s: Seq<TreeV>, k: Seq<char>)
    ensures
        key_filter(sort_seq(s), k) == key_filter(s, k),
    decreases s.len(),
{
    if s.len() > 0 {
        let d = s.drop_last();
        let x = s.last();
        lemma_sort_stable(d, k);
        lemma_sort_seq_sorted(d);
        lemma_insert_filter(x, sort_seq(d), k);
        assert(s =~= d + seq![x]);
        lemma_key_filter_concat(d, seq![x], k);
        lemma_key_filter_single(x, k);
        if sort_key(x) == k {
            assert(key_filter(d, k) + seq![x] =~= key_filter(d, k).push(x));
        } else {
            assert(key_filter(d, k) + key_filter(seq![x], k) =~= key_filter(d, k));
        }
    }
}


/// Map each sibling's sorted subtree, element-wise.
proof fn lemma_map_sort_elemwise(s: Seq<TreeV>)
    ensures
        map_sort(s).len() == s.len(),
        forall|i: int| 0 <= i < s.len() ==> map_sort(s)[i] == sort_tree_v(#[trigger] s[i]),
    decreases s,
{
    if s.len() > 0 {
        let sub = s.subrange(1, s.len() as int);
        lemma_map_sort_elemwise(sub);
        assert forall|i: int| 0 <= i < s.len() implies map_sort(s)[i] == sort_tree_v(
            #[trigger] s[i],
        ) by {
            if i > 0 {
                assert(sub[i - 1] == s[i]);
                assert(map_sort(s)[i] == map_sort(sub)[i - 1]);
            }
        }
    }
}

/// The stable sort only rearranges: every element of the result is an
/// element of the input.
proof fn lemma_sort_seq_elems(s: Seq<TreeV>)
    ensures
        sort_seq(s).len() == s.len(),
        forall|k: int| 0 <= k < sort_seq(s).len() ==> s.contains(#[trigger] sort_seq(s)[k]),
    decreases s.len(),
{
    if s.len() > 0 {
        let d = s.drop_last();
        lemma_sort_seq_elems(d);
        lemma_insert_elems(s.last(), sort_seq(d));
        assert forall|k: int| 0 <= k < sort_seq(s).len() implies s.contains(
            #[trigger] sort_seq(s)[k],
        ) by {
            let e = sort_seq(s)[k];
            if e == s.last() {
                assert(s[s.len() - 1] == e);
            } else {
                let m = choose|m: int| 0 <= m < sort_seq(d).len() && sort_seq(d)[m] == e;
                let m2 = choose|m2: int| 0 <= m2 < d.len() && d[m2] == e;
                assert(s[m2] == e);
            }
        }
    }
}

proof fn lemma_sort_each_idem(s: Seq<TreeV>)
    ensures
        forall|i: int|
            0 <= i < s.len() ==> sort_tree_v(sort_tree_v(#[trigger] s[i])) == sort_tree_v(s[i]),
    decreases s,
{
    if s.len() > 0 {
        lemma_sort_tree_idempotent(s[0]);
        let sub = s.subrange(1, s.len() as int);
        lemma_sort_each_idem(sub);
        assert forall|i: int| 0 <= i < s.len() implies sort_tree_v(
            sort_tree_v(#[trigger] s[i]),
        ) == sort_tree_v(s[i]) by {
            if i > 0 {
                assert(sub[i - 1] == s[i]);
            }
        }
    }
}

/// Sorting is idempotent: sorting an already-sorted tree leaves it as it
/// stands, throughout the tree.
pub proof fn lemma_sort_tree_idempotent(t: TreeV)
    ensures
        sort_tree_v(sort_tree_v(t)) == sort_tree_v(t),
    decreases t,
{
    match t {
        TreeV::Dir(d) => {
            let m = map_sort(d.entries);
            let e1 = sort_seq(m);
            lemma_map_sort_elemwise(d.entries);
            lemma_sort_seq_elems(m);
            lemma_sort_each_idem(d.entries);
            lemma_map_sort_elemwise(e1);
            assert forall|i: int| 0 <= i < e1.len() implies map_sort(e1)[i] == e1[i] by {
                let e = e1[i];
                let j = choose|j: int| 0 <= j < m.len() && m[j] == e;
                assert(m[j] == sort_tree_v(d.entries[j]));
                assert(sort_tree_v(e) == e);
            }
            assert(map_sort(e1) =~= e1);
            lemma_sort_seq_sorted(m);
            lemma_sort_seq_of_sorted(e1);
            assert(sort_tree_v(sort_tree_v(t))->Dir_0.entries == e1);
        },
        _ => {},
    }
}

/// Where the scan stopped, the insertion lands.
proof fn lemma_insert_sorted_at(x: TreeV, s: Seq<TreeV>, p: int)
    requires
        0 <= p <= s.len(),
        forall|j: int| 0 <= j < p ==> tree_le(#[trigger] s[j], x),
        p < s.len() ==> !tree_le(s[p], x),
    ensures
        insert_sorted(x, s) == s.subrange(0, p) + seq![x] + s.subrange(p, s.len() as int),
    decreases p,
{
    if s.len() == 0 {
        assert(insert_sorted(x, s) =~= s.subrange(0, 0) + seq![x] + s.subrange(0, 0));
    } else if p == 0 {
        assert(insert_sorted(x, s) =~= s.subrange(0, 0) + seq![x] + s.subrange(
            0,
            s.len() as int,
        ));
    } else {
        assert(tree_le(s[0], x));
        let sub = s.subrange(1, s.len() as int);
        assert(forall|j: int| 0 <= j < p - 1 ==> sub[j] == s[j + 1] && tree_le(#[trigger] sub[j], x));
        if p - 1 < sub.len() {
            assert(sub[p - 1] == s[p]);
        }
        lemma_insert_sorted_at(x, sub, p - 1);
        assert(insert_sorted(x, s) =~= s.subrange(0, p) + seq![x] + s.subrange(
            p,
            s.len() as int,
        ));
    }
}

/// The position the insertion scan finds: after every leading element the
/// new one does not precede.
fn find_insert_pos(out: &Vec<FileTree>, x: &FileTree) -> (pos: usize)
    ensures
        pos <= out@.len(),
        forall|j: int| 0 <= j < pos ==> tree_le(#[trigger] seq_tree_view(out@)[j], x@),
        pos < out@.len() ==> !tree_le(seq_tree_view(out@)[pos as int], x@),
{
    let n = out.len();
    let mut i: usize = 0;
    while i < n
        invariant
            i <= n,
            n == out@.len(),
            forall|j: int| 0 <= j < i ==> tree_le(#[trigger] seq_tree_view(out@)[j], x@),
        decreases n - i,
    {
        proof {
            lemma_seq_tree_view(out@);
        }
        let le = tree_le_exec(&out[i], x);
        if !le {
            return i;
        }
        i = i + 1;
    }
    n
}

/// One stable insertion step into an already-sorted vector.
fn insert_exec(out: &mut Vec<FileTree>, x: FileTree)
    ensures
        seq_tree_view(final(out)@) == insert_sorted(tree_view(x), seq_tree_view(old(out)@)),
{
    let ghost s = seq_tree_view(old(out)@);
    let ghost xv = tree_view(x);
    let pos = find_insert_pos(out, &x);
    proof {
        lemma_seq_tree_view(old(out)@);
        lemma_insert_sorted_at(xv, s, pos as int);
    }
    out.insert(pos, x);
    proof {
        lemma_seq_tree_view(out@);
        old(out)@.insert_ensures(pos as int, x);
        assert forall|i: int| 0 <= i < out@.len() implies seq_tree_view(out@)[i] == (s.subrange(
            0,
            pos as int,
        ) + seq![xv] + s.subrange(pos as int, s.len() as int))[i] by {
            if i < pos {
                assert(out@[i] == old(out)@[i]);
            } else if i == pos {
                assert(out@[i] == x);
            } else {
                assert(out@[i] == old(out)@[i - 1]);
            }
        }
        assert(seq_tree_view(out@) =~= s.subrange(0, pos as int) + seq![xv] + s.subrange(
            pos as int,
            s.len() as int,
        ));
    }
}

/// The stable insertion sort of one directory's entry list.
fn insertion_sort(v: Vec<FileTree>) -> (r: Vec<FileTree>)
    ensures
        seq_tree_view(r@) == sort_seq(seq_tree_view(v@)),
{
    let ghost full = seq_tree_view(v@);
    let mut rest = v;
    let mut out: Vec<FileTree> = Vec::new();
    let ghost mut done: Seq<TreeV> = Seq::empty();
    proof {
        assert(seq_tree_view(out@) =~= sort_seq(done));
        assert(done + seq_tree_view(rest@) =~= full);
    }
    while rest.len() > 0
        invariant
            seq_tree_view(out@) == sort_seq(done),
            done + seq_tree_view(rest@) == full,
        decreases rest@.len(),
    {
        let ghost head0 = rest@[0];
        let ghost prev = done;
        proof {
            lemma_seq_tree_view(rest@);
            let sub = rest@.subrange(1, rest@.len() as int);
            lemma_seq_tree_view(sub);
            assert(seq_tree_view(rest@) =~= seq![tree_view(head0)] + seq_tree_view(sub));
        }
        let ghost restpre = rest@;
        let x = rest.remove(0);
        proof {
            assert(rest@ =~= restpre.subrange(1, restpre.len() as int));
        }
        insert_exec(&mut out, x);
        proof {
            done = done.push(tree_view(head0));
            assert(done.drop_last() =~= prev);
            assert(done.last() == tree_view(head0));
            assert(sort_seq(done) == insert_sorted(tree_view(head0), sort_seq(prev)));
            assert(done + seq_tree_view(rest@) =~= full);
        }
    }
    proof {
        assert(seq_tree_view(rest@) =~= Seq::<TreeV>::empty());
        assert(done =~= full);
    }
    out
}

/// Sorts each sibling's own subtree, keeping sibling order.
fn map_sort_exec(entries: Vec<FileTree>) -> (r: Vec<FileTree>)
    ensures
        seq_tree_view(r@) == map_sort(seq_tree_view(entries@)),
    decreases entries@,
{
    let ghost ev = seq_tree_view(entries@);
    let mut rest = entries;
    if rest.len() == 0 {
        proof {
            assert(seq_tree_view(rest@) =~= map_sort(ev));
        }
        return rest;
    }
    let ghost head0 = rest@[0];
    let ghost subv = seq_tree_view(rest@.subrange(1, rest@.len() as int));
    proof {
        lemma_seq_tree_view(rest@);
        lemma_seq_tree_view(rest@.subrange(1, rest@.len() as int));
        assert(ev =~= seq![tree_view(head0)] + subv);
        assert(ev.subrange(1, ev.len() as int) =~= subv);
    }
    let ghost restpre = rest@;
    let head = rest.remove(0);
    proof {
        assert(rest@ =~= restpre.subrange(1, restpre.len() as int));
        assert(decreases_to!(entries@ => head0));
    }
    let sorted_head = sort_tree(head);
    proof {
        assert(decreases_to!(entries@ => rest@));
    }
    let mut tail = map_sort_exec(rest);
    let ghost tailpre = tail@;
    tail.insert(0, sorted_head);
    proof {
        lemma_seq_tree_view(tail@);
        lemma_seq_tree_view(tailpre);
        tailpre.insert_ensures(0, sorted_head);
        assert forall|i: int| 0 <= i < tail@.len() implies seq_tree_view(tail@)[i] == (seq![
            sort_tree_v(ev[0]),
        ] + map_sort(subv))[i] by {
            if i == 0 {
                assert(tail@[0] == sorted_head);
            } else {
                assert(tail@[i] == tailpre[i - 1]);
            }
        }
        assert(seq_tree_view(tail@) =~= seq![sort_tree_v(ev[0])] + map_sort(subv));
    }
    tail
}

/// The owned sorted version of one node: directories get their children
/// sorted depth-first; files and symlinks pass through.
fn sort_tree(t: FileTree) -> (r: FileTree)
    ensures
        r@ == sort_tree_v(t@),
    decreases t,
{
    let ghost t0 = t;
    match t {
        FileTree::DirNode(d) => {
            proof {
                assert(decreases_to!(t0 => d));
                assert(decreases_to!(d => d.entries));
                assert(decreases_to!(d.entries => d.entries@));
            }
            let ghost dv = d@;
            let Directory { file, entries, total_size, count } = d;
            let entries = map_sort_exec(entries);
            let entries = insertion_sort(entries);
            let nd = Directory { file, entries, total_size, count };
            proof {
                assert(nd@ =~= sort_tree_v(t0@)->Dir_0);
            }
            FileTree::DirNode(nd)
        },
        FileTree::FileNode(f) => FileTree::FileNode(f),
        FileTree::LinkNode(l) => FileTree::LinkNode(l),
    }
}

impl FileTree {
    /// Sorts every directory's direct children by the name comparator,
    /// recursively and in place. Fails exactly on a non-directory root,
    /// which is left unchanged.
    pub fn sort_by(&mut self, args: &Args) -> (r: Result<(), SortError>)
        ensures
            old(self)@ is Dir ==> r is Ok && final(self)@ == sort_tree_v(old(self)@),
            !(old(self)@ is Dir) ==> r is Err && final(self)@ == old(self)@,
    {
        if !self.is_dir() {
            return Err(SortError::NotADirectory);
        }
        let mut taken: FileTree = FileTree::FileNode(
            File::new(
                String::new(),
                Metadata {
                    size: 0,
                    nlink: 0,
                    mode: 0,
                    blocks: 0,
                    kind: FileKind::Regular,
                    owner: String::new(),
                    group: String::new(),
                    modified: None,
                },
            ),
        );
        core::mem::swap(self, &mut taken);
        let sorted = sort_tree(taken);
        *self = sorted;
        Ok(())
    }
}


proof fn lemma_insert_preserves_sums(x: TreeV, s: Seq<TreeV>)
    ensures
        sum_sizes(insert_sorted(x, s)) == contrib_size(x) + sum_sizes(s),
        sum_counts(insert_sorted(x, s)) == contrib_count(x) + sum_counts(s),
    decreases s.len(),
{
    let r = insert_sorted(x, s);
    if s.len() == 0 {
        assert(r[0] == x);
        assert(r.subrange(1, r.len() as int) =~= Seq::<TreeV>::empty());
        assert(sum_sizes(Seq::<TreeV>::empty()) == 0);
        assert(sum_counts(Seq::<TreeV>::empty()) == 0);
        assert(sum_sizes(s) == 0);
        assert(sum_counts(s) == 0);
    } else if tree_le(s[0], x) {
        let sub = s.subrange(1, s.len() as int);
        lemma_insert_preserves_sums(x, sub);
        assert(r[0] == s[0]);
        assert(r.subrange(1, r.len() as int) =~= insert_sorted(x, sub));
    } else {
        assert(r[0] == x);
        assert(r.subrange(1, r.len() as int) =~= s);
    }
}

proof fn lemma_sort_seq_preserves_sums(s: Seq<TreeV>)
    ensures
        sum_sizes(sort_seq(s)) == sum_sizes(s),
        sum_counts(sort_seq(s)) == sum_counts(s),
    decreases s.len(),
{
    if s.len() > 0 {
        let d = s.drop_last();
        lemma_sort_seq_preserves_sums(d);
        lemma_insert_preserves_sums(s.last(), sort_seq(d));
        lemma_sums_snoc(d, s.last());
        assert(d.push(s.last()) =~= s);
    }
}

proof fn lemma_sums_snoc(s: Seq<TreeV>, x: TreeV)
    ensures
        sum_sizes(s.push(x)) == sum_sizes(s) + contrib_size(x),
        sum_counts(s.push(x)) == sum_counts(s) + contrib_count(x),
    decreases s.len(),
{
    if s.len() == 0 {
        assert(s.push(x)[0] == x);
        assert(s.push(x).subrange(1, 1) =~= Seq::<TreeV>::empty());
        assert(sum_sizes(s.push(x).subrange(1, 1)) == 0);
        assert(sum_counts(s.push(x).subrange(1, 1)) == 0);
    } else {
        let sub = s.subrange(1, s.len() as int);
        assert(s.push(x).subrange(1, s.len() as int + 1) =~= sub.push(x));
        lemma_sums_snoc(sub, x);
        assert(s.push(x)[0] == s[0]);
    }
}

proof fn lemma_map_sort_preserves_sums(s: Seq<TreeV>)
    requires
        forall|i: int| 0 <= i < s.len() ==> tree_wf(#[trigger] s[i]),
    ensures
        sum_sizes(map_sort(s)) == sum_sizes(s),
        sum_counts(map_sort(s)) == sum_counts(s),
        forall|i: int| 0 <= i < map_sort(s).len() ==> tree_wf(#[trigger] map_sort(s)[i]),
    decreases s,
{
    if s.len() > 0 {
        lemma_sort_preserves_wf(s[0]);
        let sub = s.subrange(1, s.len() as int);
        assert(forall|i: int| 0 <= i < sub.len() ==> tree_wf(#[trigger] sub[i]));
        lemma_map_sort_preserves_sums(sub);
        let r = map_sort(s);
        assert(r[0] == sort_tree_v(s[0]));
        assert(r.subrange(1, r.len() as int) =~= map_sort(sub));
        assert(contrib_size(sort_tree_v(s[0])) == contrib_size(s[0]));
        assert(contrib_count(sort_tree_v(s[0])) == contrib_count(s[0]));
        assert forall|i: int| 0 <= i < r.len() implies tree_wf(#[trigger] r[i]) by {
            if i > 0 {
                assert(r[i] == map_sort(sub)[i - 1]);
            }
        }
    }
}

/// Sorting preserves the aggregation invariant: a well-formed tree stays
/// well formed, and every directory keeps its stored aggregates, so the
/// counting and size laws still hold of the sorted tree.
pub proof fn lemma_sort_preserves_wf(t: TreeV)
    requires
        tree_wf(t),
    ensures
        tree_wf(sort_tree_v(t)),
    decreases t,
{
    match t {
        TreeV::Dir(d) => {
            let m = map_sort(d.entries);
            let e1 = sort_seq(m);
            lemma_map_sort_preserves_sums(d.entries);
            lemma_sort_seq_preserves_sums(m);
            lemma_sort_seq_elems(m);
            assert forall|i: int| 0 <= i < e1.len() implies tree_wf(#[trigger] e1[i]) by {
                assert(m.contains(e1[i]));
                let j = choose|j: int| 0 <= j < m.len() && m[j] == e1[i];
            }
            assert(dir_wf(sort_tree_v(t)->Dir_0));
        },
        _ => {},
    }
}

} // verus!
