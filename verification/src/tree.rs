//! An in-memory snapshot of a directory tree.
//!
//! The calling program reads the filesystem once and hands the library this
//! plain-value picture of it: one node per directory or file, each carrying
//! its name (final path segment), its kind, its byte size (files), and
//! whether it could be read (listing for directories, stat for files).
//! Every algorithm of the library is verified against this model.

use vstd::prelude::*;
use vstd::set_lib::{lemma_int_range, lemma_len_subset, set_int_range};

verus! {

/// One entry of a directory-tree snapshot.
pub struct FsNode {
    /// Index of the parent directory; the root (index 0) points to itself.
    pub parent: usize,
    /// This entry's name within its parent: the final segment of its path.
    pub name: Vec<u8>,
    /// True for directories, false for files.
    pub is_dir: bool,
    /// Byte length of a file; ignored for directories.
    pub size: u64,
    /// Whether the entry could be read: a directory that could be listed,
    /// or a file that could be stat'ed.
    pub readable: bool,
}

/// A snapshot of a directory tree. Node 0 is the scanned root; every other
/// node appears after its parent, so ancestor chains always lead to the root.
pub struct FsTree {
    /// The nodes, parent always before child.
    pub nodes: Vec<FsNode>,
}

impl FsTree {
    /// Number of nodes.
    pub open spec fn len(self) -> int {
        self.nodes@.len() as int
    }

    /// The node at index `i`.
    pub open spec fn node(self, i: int) -> FsNode {
        self.nodes@[i]
    }

    /// The parent index of node `i`.
    pub open spec fn parent_of(self, i: int) -> int {
        self.nodes@[i].parent as int
    }

    /// `i` indexes a node of this snapshot.
    pub open spec fn valid_index(self, i: int) -> bool {
        0 <= i < self.len()
    }

    /// Well-formed snapshot: the root exists and is a directory, every other
    /// node's parent is an earlier directory node, and siblings have
    /// distinct names (as real directory listings do).
    pub open spec fn wf(self) -> bool {
        &&& self.len() >= 1
        &&& self.node(0).is_dir
        &&& self.parent_of(0) == 0
        &&& forall|i: int| 1 <= i < self.len() ==> #[trigger] self.parent_of(i) < i
        &&& forall|i: int| 1 <= i < self.len() ==> self.node(#[trigger] self.parent_of(i)).is_dir
        &&& forall|i: int, j: int|
            #![trigger self.parent_of(i), self.parent_of(j)]
            1 <= i < self.len() && 1 <= j < self.len() && i != j && self.parent_of(i)
                == self.parent_of(j) ==> self.node(i).name@ != self.node(j).name@
    }

    /// The path of node `i`: its segment names from the root down. The root's
    /// own path is empty, so paths are relative to the scanned root.
    pub open spec fn path_of(self, i: int) -> Seq<Seq<u8>>
        decreases i,
        when self.wf() && self.valid_index(i)
    {
        if i <= 0 {
            Seq::empty()
        } else {
            self.path_of(self.parent_of(i)).push(self.node(i).name@)
        }
    }

    /// Node `a` is a proper ancestor of node `i`.
    pub open spec fn strict_ancestor(self, a: int, i: int) -> bool
        decreases i,
        when self.wf() && self.valid_index(i)
    {
        i > 0 && (self.parent_of(i) == a || self.strict_ancestor(a, self.parent_of(i)))
    }
}

impl FsTree {
    /// A snapshot holding only the scanned root.
    pub fn new_root(readable: bool) -> (t: FsTree)
        ensures
            t.wf(),
            t.len() == 1,
            t.node(0).is_dir,
            t.node(0).readable == readable,
    {
        let root = FsNode { parent: 0, name: Vec::new(), is_dir: true, size: 0, readable };
        let mut nodes: Vec<FsNode> = Vec::new();
        nodes.push(root);
        FsTree { nodes }
    }

    /// Adds one entry beneath an existing directory and returns its index.
    /// Returns `None`, leaving the snapshot unchanged, when `parent` is not a
    /// directory of the snapshot or the name is already taken by a sibling —
    /// so the snapshot stays well-formed by construction.
    pub fn add_entry(
        &mut self,
        parent: usize,
        name: Vec<u8>,
        is_dir: bool,
        size: u64,
        readable: bool,
    ) -> (r: Option<usize>)
        requires
            old(self).wf(),
        ensures
            final(self).wf(),
            r is Some ==> {
                &&& final(self).nodes@ == old(self).nodes@.push(
                    FsNode { parent, name, is_dir, size, readable },
                )
                &&& r == Some(old(self).nodes@.len() as usize)
                &&& (parent as int) < old(self).len()
                &&& old(self).node(parent as int).is_dir
            },
            r is None ==> *final(self) == *old(self),
            r is None <==> {
                ||| (parent as int) >= old(self).len()
                ||| !old(self).node(parent as int).is_dir
                ||| exists|k: int|
                    1 <= k < old(self).len() && old(self).parent_of(k) == parent as int
                        && (#[trigger] old(self).node(k).name@) == name@
            },
    {
        let n = self.nodes.len();
        if parent >= n || !self.nodes[parent].is_dir {
            return None;
        }
        let mut k: usize = 1;
        while k < n
            invariant
                *self == *old(self),
                self.wf(),
                n == self.len(),
                (parent as int) < self.len(),
                self.node(parent as int).is_dir,
                1 <= k <= n,
                forall|j: int|
                    1 <= j < k ==> !(self.parent_of(j) == parent as int && (#[trigger] self.node(
                        j,
                    ).name@) == name@),
            decreases n - k,
        {
            if self.nodes[k].parent == parent && bytes_eq(&self.nodes[k].name, &name) {
                proof {
                    assert(1 <= k < old(self).len() && old(self).parent_of(k as int)
                        == parent as int && old(self).node(k as int).name@ == name@);
                }
                return None;
            }
            k += 1;
        }
        let ghost old_tree = *self;
        self.nodes.push(FsNode { parent, name, is_dir, size, readable });
        proof {
            let t = *self;
            let m = old_tree.len();
            assert forall|i: int| 1 <= i < t.len() implies #[trigger] t.parent_of(i) < i by {
                if i < m {
                    assert(t.parent_of(i) == old_tree.parent_of(i));
                }
            }
            assert forall|i: int| 1 <= i < t.len() implies t.node(
                #[trigger] t.parent_of(i),
            ).is_dir by {
                if i < m {
                    assert(t.parent_of(i) == old_tree.parent_of(i));
                    assert(old_tree.node(old_tree.parent_of(i)).is_dir);
                }
            }
            assert forall|i: int, j: int|
                #![trigger t.parent_of(i), t.parent_of(j)]
                1 <= i < t.len() && 1 <= j < t.len() && i != j && t.parent_of(i) == t.parent_of(
                    j,
                ) implies t.node(i).name@ != t.node(j).name@ by {
                if i < m && j < m {
                    assert(old_tree.parent_of(i) == old_tree.parent_of(j) ==> old_tree.node(
                        i,
                    ).name@ != old_tree.node(j).name@);
                } else if i == m && j < m {
                    assert(t.nodes@[j] == old_tree.nodes@[j]);
                    assert(!(old_tree.parent_of(j) == parent as int && old_tree.node(j).name@
                        == name@));
                    assert(t.node(m).name@ == name@ && t.parent_of(m) == parent as int);
                } else if j == m && i < m {
                    assert(t.nodes@[i] == old_tree.nodes@[i]);
                    assert(!(old_tree.parent_of(i) == parent as int && old_tree.node(i).name@
                        == name@));
                    assert(t.node(m).name@ == name@ && t.parent_of(m) == parent as int);
                }
            }
        }
        Some(n)
    }
}

/// Byte-string equality.
fn bytes_eq(a: &Vec<u8>, b: &Vec<u8>) -> (r: bool)
    ensures
        r == (a@ == b@),
{
    if a.len() != b.len() {
        proof {
            assert(a@ != b@);
        }
        return false;
    }
    let mut i: usize = 0;
    while i < a.len()
        invariant
            a@.len() == b@.len(),
            i <= a@.len(),
            forall|j: int| 0 <= j < i ==> a@[j] == b@[j],
        decreases a@.len() - i,
    {
        if a[i] != b[i] {
            return false;
        }
        i += 1;
    }
    proof {
        assert(a@ =~= b@);
    }
    true
}

/// Paths have one segment per ancestry step, so a node's path is longer than
/// its parent's; only the root has the empty path.
pub proof fn lemma_path_len(t: FsTree, i: int)
    requires
        t.wf(),
        t.valid_index(i),
    ensures
        i == 0 ==> t.path_of(i).len() == 0,
        i > 0 ==> t.path_of(i).len() == t.path_of(t.parent_of(i)).len() + 1,
{
}

/// Distinct nodes have distinct paths.
pub proof fn lemma_path_injective(t: FsTree, i: int, j: int)
    requires
        t.wf(),
        t.valid_index(i),
        t.valid_index(j),
        t.path_of(i) == t.path_of(j),
    ensures
        i == j,
    decreases i + j,
{
    if i > 0 && j > 0 {
        let pi = t.parent_of(i);
        let pj = t.parent_of(j);
        assert(t.path_of(i).last() == t.node(i).name@);
        assert(t.path_of(i).drop_last() =~= t.path_of(pi));
        assert(t.path_of(j).drop_last() =~= t.path_of(pj));
        lemma_path_injective(t, pi, pj);
        if i != j {
            assert(t.node(i).name@ != t.node(j).name@);
        }
    } else if i == 0 && j > 0 {
        lemma_path_len(t, j);
        assert(t.path_of(j).len() > 0);
    } else if j == 0 && i > 0 {
        lemma_path_len(t, i);
        assert(t.path_of(i).len() > 0);
    }
}

/// A path-prefix between distinct nodes means proper ancestry in the tree.
pub proof fn lemma_prefix_is_ancestor(t: FsTree, i: int, j: int)
    requires
        t.wf(),
        t.valid_index(i),
        t.valid_index(j),
        i != j,
        t.path_of(i).is_prefix_of(t.path_of(j)),
    ensures
        t.strict_ancestor(i, j),
    decreases j,
{
    if j == 0 {
        lemma_path_len(t, j);
        assert(t.path_of(i).len() == 0);
        if i > 0 {
            lemma_path_len(t, i);
        }
        assert(i == 0);
    } else {
        let p = t.parent_of(j);
        lemma_path_len(t, j);
        if t.path_of(i).len() == t.path_of(j).len() {
            assert(t.path_of(i) =~= t.path_of(j));
            lemma_path_injective(t, i, j);
        } else {
            assert(t.path_of(j).drop_last() =~= t.path_of(p));
            assert(t.path_of(i).is_prefix_of(t.path_of(p))) by {
                assert(t.path_of(i).len() <= t.path_of(p).len());
                assert(t.path_of(i) =~= t.path_of(p).subrange(0, t.path_of(i).len() as int));
            }
            if i == p {
                assert(t.strict_ancestor(i, j));
            } else {
                lemma_prefix_is_ancestor(t, i, p);
                assert(t.strict_ancestor(i, j));
            }
        }
    }
}

/// The segments of node `i`'s path, from the root down, as owned values.
pub fn node_path(t: &FsTree, i: usize) -> (p: Vec<Vec<u8>>)
    requires
        t.wf(),
        t.valid_index(i as int),
    ensures
        p.deep_view() == t.path_of(i as int),
{
    let mut rev: Vec<Vec<u8>> = Vec::new();
    let mut cur: usize = i;
    while cur != 0
        invariant
            t.wf(),
            t.valid_index(cur as int),
            t.path_of(i as int) =~~= t.path_of(cur as int) + rev.deep_view().reverse(),
        decreases cur,
    {
        let ghost prev_rev = rev.deep_view();
        let ghost prev_cur = cur as int;
        rev.push(vstd::slice::slice_to_vec(t.nodes[cur].name.as_slice()));
        proof {
            assert(rev.deep_view() =~~= prev_rev.push(t.node(prev_cur).name@));
            assert(rev.deep_view().reverse() =~~= seq![t.node(prev_cur).name@]
                + prev_rev.reverse());
            assert(t.path_of(prev_cur) =~~= t.path_of(t.parent_of(prev_cur)).push(
                t.node(prev_cur).name@,
            ));
            assert(t.path_of(i as int) =~~= t.path_of(t.parent_of(prev_cur))
                + rev.deep_view().reverse());
        }
        cur = t.nodes[cur].parent;
    }
    let mut p: Vec<Vec<u8>> = Vec::new();
    proof {
        assert(t.path_of(cur as int) =~~= Seq::<Seq<u8>>::empty());
        assert(p.deep_view() + rev.deep_view().reverse() =~~= t.path_of(i as int));
    }
    while rev.len() > 0
        invariant
            p.deep_view() + rev.deep_view().reverse() =~~= t.path_of(i as int),
        decreases rev.len(),
    {
        let ghost prev_p = p.deep_view();
        let ghost prev_rev = rev.deep_view();
        if let Some(seg) = rev.pop() {
            p.push(seg);
            proof {
                assert(rev.deep_view() =~~= prev_rev.drop_last());
                assert(p.deep_view() =~~= prev_p.push(prev_rev.last()));
                assert(prev_rev.reverse() =~~= seq![prev_rev.last()]
                    + prev_rev.drop_last().reverse());
                assert(p.deep_view() + rev.deep_view().reverse() =~~= prev_p
                    + prev_rev.reverse());
            }
        }
    }
    proof {
        assert(rev.deep_view().reverse() =~~= Seq::<Seq<u8>>::empty());
        assert(p.deep_view() =~~= t.path_of(i as int));
    }
    p
}

/// A sequence of distinct indices all below `n` has at most `n` elements.
pub proof fn lemma_distinct_bounded_len(s: Seq<usize>, n: nat)
    requires
        s.no_duplicates(),
        forall|k: int| 0 <= k < s.len() ==> (s[k] as nat) < n,
    ensures
        s.len() <= n,
{
    let t = s.map_values(|x: usize| x as int);
    assert(t.no_duplicates()) by {
        assert forall|a: int, b: int|
            0 <= a < t.len() && 0 <= b < t.len() && a != b implies t[a] != t[b] by {
            assert(s[a] != s[b]);
        }
    }
    t.unique_seq_to_set();
    assert(t.to_set().subset_of(set_int_range(0, n as int))) by {
        assert forall|x: int| t.to_set().contains(x) implies set_int_range(
            0,
            n as int,
        ).contains(x) by {
            let k = choose|k: int| 0 <= k < t.len() && t[k] == x;
            assert((s[k] as nat) < n);
        }
    }
    lemma_int_range(0, n as int);
    lemma_len_subset(t.to_set(), set_int_range(0, n as int));
}

} // verus!
