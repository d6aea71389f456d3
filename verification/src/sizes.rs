//! Size aggregation over a directory-tree snapshot.
//!
//! Each root's subtree is walked independently; every file the walk can see
//! contributes its byte length, and an entry that could not be read (an
//! unlistable directory, an unstat-able file) contributes zero instead of
//! failing the walk. Totals saturate at `u64::MAX` rather than overflow.

use vstd::prelude::*;
use vstd::seq_lib::commutative_foldr;
use vstd::seq_lib::lemma_fold_right_permutation;

use crate::tree::FsTree;

verus! {

/// The walk from `root` sees node `f`: `f` is the root itself, or its parent
/// is seen and readable. Entries beneath an unreadable directory are never
/// seen and so never counted.
pub open spec fn visible_from(t: FsTree, root: int, f: int) -> bool
    decreases f,
    when t.wf() && t.valid_index(f)
{
    if f == root {
        true
    } else if f <= 0 {
        false
    } else {
        visible_from(t, root, t.parent_of(f)) && t.node(t.parent_of(f)).readable
    }
}

/// What node `f` adds to the tally of `root`: its size if it is a file the
/// walk sees and it could be stat'ed, zero otherwise.
pub open spec fn file_contribution(t: FsTree, root: int, f: int) -> nat {
    if t.valid_index(f) && visible_from(t, root, f) && !t.node(f).is_dir && t.node(f).readable {
        t.node(f).size as nat
    } else {
        0
    }
}

/// The tally of `root` over the first `k` nodes of the snapshot.
pub open spec fn subtree_size_upto(t: FsTree, root: int, k: int) -> nat
    decreases k,
{
    if k <= 0 {
        0
    } else {
        subtree_size_upto(t, root, k - 1) + file_contribution(t, root, k - 1)
    }
}

/// Total byte size of the subtree at `root`: the sum of the sizes of every
/// file the walk from `root` sees.
pub open spec fn subtree_size(t: FsTree, root: int) -> nat {
    subtree_size_upto(t, root, t.len())
}

/// The combined total of a list of roots: the sum of each root's subtree
/// size, each root counted as given.
pub open spec fn roots_total(t: FsTree, roots: Seq<usize>) -> int {
    roots.fold_right(|r: usize, acc: int| acc + subtree_size(t, r as int), 0)
}

/// Saturating addition on `u64`.
fn saturating_add(a: u64, b: u64) -> (r: u64)
    ensures
        a + b <= u64::MAX ==> r == a + b,
        a + b > u64::MAX ==> r == u64::MAX,
{
    if a > u64::MAX - b {
        u64::MAX
    } else {
        a + b
    }
}

/// Computes the size of one root's subtree by a single pass over the
/// snapshot, marking each node the walk sees (a node is seen exactly when
/// its parent is seen and readable, parents always coming first) and adding
/// the sizes of seen, readable files. Saturates at `u64::MAX`.
pub fn get_folder_size(t: &FsTree, root: usize) -> (size: u64)
    requires
        t.wf(),
        t.valid_index(root as int),
    ensures
        subtree_size(*t, root as int) <= u64::MAX ==> size == subtree_size(*t, root as int),
        subtree_size(*t, root as int) > u64::MAX ==> size == u64::MAX,
{
    let n = t.nodes.len();
    let mut seen: Vec<bool> = Vec::new();
    let mut size: u64 = 0;
    let mut f: usize = 0;
    while f < n
        invariant
            t.wf(),
            n == t.len(),
            t.valid_index(root as int),
            f <= n,
            seen@.len() == f as int,
            forall|k: int| 0 <= k < f ==> #[trigger] seen@[k] == visible_from(*t, root as int, k),
            subtree_size_upto(*t, root as int, f as int) <= u64::MAX ==> size
                == subtree_size_upto(*t, root as int, f as int),
            subtree_size_upto(*t, root as int, f as int) > u64::MAX ==> size == u64::MAX,
        decreases n - f,
    {
        let v: bool = if f == root {
            true
        } else if f == 0 {
            false
        } else {
            let p = t.nodes[f].parent;
            proof {
                assert(p as int == t.parent_of(f as int));
                assert(t.parent_of(f as int) < f as int);
            }
            seen[p] && t.nodes[p].readable
        };
        proof {
            assert(v == visible_from(*t, root as int, f as int));
        }
        if v && !t.nodes[f].is_dir && t.nodes[f].readable {
            size = saturating_add(size, t.nodes[f].size);
        }
        seen.push(v);
        f += 1;
    }
    size
}

/// Unfolds `roots_total` by one root: appending a root adds its subtree size.
pub proof fn lemma_roots_total_push(t: FsTree, roots: Seq<usize>, r: usize)
    ensures
        roots_total(t, roots.push(r)) == roots_total(t, roots) + subtree_size(t, r as int),
{
    let f = |x: usize, acc: int| acc + subtree_size(t, x as int);
    assert(roots.push(r).drop_last() =~= roots);
    assert(roots.push(r).last() == r);
    assert(commutative_foldr(f));
    roots.lemma_fold_right_commute_one(r, f, 0);
}

/// Sums the sizes of the given subtrees, saturating at `u64::MAX`. Each
/// root is summed independently; the result is the sum of the individual
/// subtree sizes, in whatever order the roots are given.
pub fn calculate_folders_size(t: &FsTree, folders: &Vec<usize>) -> (total: u64)
    requires
        t.wf(),
        forall|k: int| 0 <= k < folders@.len() ==> t.valid_index(#[trigger] folders@[k] as int),
    ensures
        roots_total(*t, folders@) <= u64::MAX ==> total == roots_total(*t, folders@),
        roots_total(*t, folders@) > u64::MAX ==> total == u64::MAX,
{
    let mut total: u64 = 0;
    let mut k: usize = 0;
    proof {
        assert(folders@.subrange(0, 0) =~= Seq::<usize>::empty());
    }
    while k < folders.len()
        invariant
            t.wf(),
            forall|j: int| 0 <= j < folders@.len() ==> t.valid_index(#[trigger] folders@[j] as int),
            k <= folders@.len(),
            roots_total(*t, folders@.subrange(0, k as int)) >= 0,
            roots_total(*t, folders@.subrange(0, k as int)) <= u64::MAX ==> total == roots_total(
                *t,
                folders@.subrange(0, k as int),
            ),
            roots_total(*t, folders@.subrange(0, k as int)) > u64::MAX ==> total == u64::MAX,
        decreases folders@.len() - k,
    {
        let r = folders[k];
        let s = get_folder_size(t, r);
        total = saturating_add(total, s);
        proof {
            assert(folders@.subrange(0, k as int + 1) =~= folders@.subrange(0, k as int).push(r));
            lemma_roots_total_push(*t, folders@.subrange(0, k as int), r);
        }
        k += 1;
    }
    proof {
        assert(folders@.subrange(0, folders@.len() as int) =~= folders@);
    }
    total
}

/// Reordering the roots never changes the combined total: summation over
/// independent subtrees is commutative and associative.
pub proof fn lemma_roots_total_permutation(t: FsTree, r1: Seq<usize>, r2: Seq<usize>)
    requires
        r1.to_multiset() == r2.to_multiset(),
    ensures
        roots_total(t, r1) == roots_total(t, r2),
{
    let f = |x: usize, acc: int| acc + subtree_size(t, x as int);
    assert(commutative_foldr(f));
    lemma_fold_right_permutation(r1, r2, f, 0);
}

} // verus!
