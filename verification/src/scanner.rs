//! The traversal engine: walks a directory-tree snapshot from its root with
//! an explicit work queue (arena of pending directories plus a cursor, so no
//! unbounded recursion), testing every directory against the matcher.
//!
//! A directory that matches is added to the result and its children are
//! never enqueued: a matched subtree is a leaf of the walk, deleted as a
//! unit. A directory that could not be listed is skipped without failing the
//! scan. The root itself is never matched, whatever its name.

use vstd::prelude::*;

use crate::matcher::PathMatcher;
use crate::tree::{lemma_distinct_bounded_len, lemma_prefix_is_ancestor, FsTree};

verus! {

/// Node `i` is a match candidate on its own account: a non-root directory
/// whose name names an artifact.
pub open spec fn selected(t: FsTree, m: PathMatcher, i: int) -> bool {
    i > 0 && t.node(i).is_dir && m.spec_matches_name(t.node(i).name@)
}

/// The walk reaches node `i`: every proper ancestor below it was readable
/// and was not itself selected, since the walk skips unreadable directories
/// and never descends beneath a matched one.
pub open spec fn discovered(t: FsTree, m: PathMatcher, i: int) -> bool
    decreases i,
    when t.wf() && t.valid_index(i)
{
    if i <= 0 {
        true
    } else {
        let p = t.parent_of(i);
        discovered(t, m, p) && t.node(p).readable && !selected(t, m, p)
    }
}

/// Node `i` belongs to the matched root set: a reached, non-root directory
/// whose name matches.
pub open spec fn matched(t: FsTree, m: PathMatcher, i: int) -> bool {
    t.valid_index(i) && selected(t, m, i) && discovered(t, m, i)
}

/// `matched`, for a node given as an index value.
pub open spec fn matched_at(t: FsTree, m: PathMatcher, y: usize) -> bool {
    matched(t, m, y as int)
}

/// `v` occurs among the first `h` elements of `q`: the processed part of the
/// work queue.
spec fn in_prefix(q: Seq<usize>, h: int, v: int) -> bool {
    exists|k: int| 0 <= k < h && q[k] as int == v
}

/// What the work queue holds: the root, or an unmatched child directory of a
/// readable directory that has already been processed.
spec fn on_queue(t: FsTree, m: PathMatcher, q: Seq<usize>, h: int, x: int) -> bool {
    ||| x == 0
    ||| {
        &&& 1 <= x < t.len()
        &&& t.node(x).is_dir
        &&& !m.spec_matches_name(t.node(x).name@)
        &&& t.node(t.parent_of(x)).readable
        &&& in_prefix(q, h, t.parent_of(x))
    }
}

/// What the result holds: a matching child directory of a readable directory
/// that has already been processed.
spec fn in_found(t: FsTree, m: PathMatcher, q: Seq<usize>, h: int, x: int) -> bool {
    &&& 1 <= x < t.len()
    &&& t.node(x).is_dir
    &&& m.spec_matches_name(t.node(x).name@)
    &&& t.node(t.parent_of(x)).readable
    &&& in_prefix(q, h, t.parent_of(x))
}

/// Every queue element is a reached, unselected directory of the snapshot.
spec fn queue_elem_ok(t: FsTree, m: PathMatcher, y: usize) -> bool {
    &&& t.valid_index(y as int)
    &&& t.node(y as int).is_dir
    &&& discovered(t, m, y as int)
    &&& !selected(t, m, y as int)
}

/// The children of `d` that the current inner pass has already handed to the
/// queue: unmatched child directories with index below `j`.
spec fn added_to_queue(t: FsTree, m: PathMatcher, d: int, j: int, x: int) -> bool {
    &&& 1 <= x < j
    &&& t.parent_of(x) == d
    &&& t.node(x).is_dir
    &&& !m.spec_matches_name(t.node(x).name@)
}

/// The children of `d` that the current inner pass has already added to the
/// result: matching child directories with index below `j`.
spec fn added_to_found(t: FsTree, m: PathMatcher, d: int, j: int, x: int) -> bool {
    &&& 1 <= x < j
    &&& t.parent_of(x) == d
    &&& t.node(x).is_dir
    &&& m.spec_matches_name(t.node(x).name@)
}

/// Once the whole queue is processed, it holds every reached, unselected
/// directory of the snapshot.
proof fn lemma_queue_complete(t: FsTree, m: PathMatcher, q: Seq<usize>, x: usize)
    requires
        t.wf(),
        forall|y: usize| #[trigger] q.contains(y) <==> on_queue(t, m, q, q.len() as int, y as int),
        t.valid_index(x as int),
        t.node(x as int).is_dir,
        discovered(t, m, x as int),
        !selected(t, m, x as int),
    ensures
        q.contains(x),
    decreases x,
{
    if x == 0 {
        assert(on_queue(t, m, q, q.len() as int, 0));
        assert(q.contains(0usize));
    } else {
        let p = t.parent_of(x as int);
        let pu = t.node(x as int).parent;
        assert(pu as int == p);
        assert(discovered(t, m, p) && t.node(p).readable && !selected(t, m, p));
        assert(t.node(p).is_dir);
        lemma_queue_complete(t, m, q, pu);
        let k = choose|k: int| 0 <= k < q.len() && q[k] == pu;
        assert(in_prefix(q, q.len() as int, p));
        assert(on_queue(t, m, q, q.len() as int, x as int));
        assert(q.contains(x));
    }
}

/// Walks the snapshot breadth-first from the root and collects the matched
/// root set, as node indices. The result holds exactly the matched nodes of
/// the snapshot — every directory whose name matches and whose proper
/// ancestors were all readable and unmatched — each exactly once.
pub fn collect_matching_folders(t: &FsTree, m: &PathMatcher) -> (r: Vec<usize>)
    requires
        t.wf(),
    ensures
        forall|k: int| 0 <= k < r@.len() ==> matched_at(*t, *m, #[trigger] r@[k]),
        forall|x: int| matched(*t, *m, x) ==> r@.contains(x as usize),
        r@.no_duplicates(),
{
    let n = t.nodes.len();
    let mut queue: Vec<usize> = Vec::new();
    let mut found: Vec<usize> = Vec::new();
    queue.push(0);
    let mut head: usize = 0;
    proof {
        assert forall|y: usize| #[trigger] queue@.contains(y) implies on_queue(
            *t,
            *m,
            queue@,
            0,
            y as int,
        ) by {
            assert(queue@[0] == 0usize);
        }
        assert forall|y: usize| on_queue(*t, *m, queue@, 0, y as int) implies queue@.contains(
            y,
        ) by {
            assert(queue@[0] == 0usize);
        }
    }
    while head < queue.len()
        invariant
            t.wf(),
            n == t.len(),
            head <= queue@.len() <= n,
            queue@.no_duplicates(),
            found@.no_duplicates(),
            forall|k: int|
                0 <= k < queue@.len() ==> queue_elem_ok(*t, *m, #[trigger] queue@[k]),
            forall|k: int| 0 <= k < found@.len() ==> matched_at(*t, *m, #[trigger] found@[k]),
            forall|y: usize| #[trigger]
                queue@.contains(y) <==> on_queue(*t, *m, queue@, head as int, y as int),
            forall|y: usize| #[trigger]
                found@.contains(y) <==> in_found(*t, *m, queue@, head as int, y as int),
        decreases n - head,
    {
        let d = queue[head];
        let ghost q0 = queue@;
        let ghost f0 = found@;
        let ghost h0 = head as int;
        let d_readable = t.nodes[d].readable;
        if d_readable {
            let mut j: usize = 1;
            while j < n
                invariant
                    t.wf(),
                    n == t.len(),
                    1 <= j <= n,
                    h0 == head as int,
                    h0 < q0.len() <= n,
                    q0[h0] == d,
                    queue_elem_ok(*t, *m, d),
                    t.node(d as int).readable,
                    q0.no_duplicates(),
                    f0.no_duplicates(),
                    queue@.len() >= q0.len(),
                    queue@.subrange(0, q0.len() as int) == q0,
                    queue@.no_duplicates(),
                    found@.no_duplicates(),
                    forall|k: int|
                        0 <= k < queue@.len() ==> queue_elem_ok(*t, *m, #[trigger] queue@[k]),
                    forall|k: int|
                        0 <= k < found@.len() ==> matched_at(*t, *m, #[trigger] found@[k]),
                    forall|y: usize| #[trigger]
                        q0.contains(y) <==> on_queue(*t, *m, q0, h0, y as int),
                    forall|y: usize| #[trigger]
                        f0.contains(y) <==> in_found(*t, *m, q0, h0, y as int),
                    forall|y: usize| #[trigger]
                        queue@.contains(y) <==> (q0.contains(y) || added_to_queue(
                            *t,
                            *m,
                            d as int,
                            j as int,
                            y as int,
                        )),
                    forall|y: usize| #[trigger]
                        found@.contains(y) <==> (f0.contains(y) || added_to_found(
                            *t,
                            *m,
                            d as int,
                            j as int,
                            y as int,
                        )),
                decreases n - j,
            {
                if t.nodes[j].parent == d && t.nodes[j].is_dir {
                    proof {
                        assert(!q0.contains(j)) by {
                            if q0.contains(j) {
                                assert(on_queue(*t, *m, q0, h0, j as int));
                                let k = choose|k: int|
                                    0 <= k < h0 && q0[k] as int == t.parent_of(j as int);
                                assert(q0[k] == d);
                                assert(q0[h0] == d);
                            }
                        }
                        assert(!f0.contains(j)) by {
                            if f0.contains(j) {
                                assert(in_found(*t, *m, q0, h0, j as int));
                                let k = choose|k: int|
                                    0 <= k < h0 && q0[k] as int == t.parent_of(j as int);
                                assert(q0[k] == d);
                                assert(q0[h0] == d);
                            }
                        }
                        assert(!queue@.contains(j));
                        assert(!found@.contains(j));
                        assert(discovered(*t, *m, j as int)) by {
                            assert(t.parent_of(j as int) == d as int);
                            assert(discovered(*t, *m, d as int));
                            assert(!selected(*t, *m, d as int));
                            assert(t.node(d as int).readable);
                        }
                    }
                    let ghost qb = queue@;
                    let ghost fb = found@;
                    if m.matches_name(&t.nodes[j].name) {
                        found.push(j);
                        proof {
                            assert forall|y: usize| #[trigger] found@.contains(y) implies (
                            f0.contains(y) || added_to_found(
                                *t,
                                *m,
                                d as int,
                                j as int + 1,
                                y as int,
                            )) by {
                                if y != j {
                                    assert(fb.contains(y));
                                }
                            }
                            assert forall|y: usize|
                                f0.contains(y) || added_to_found(
                                    *t,
                                    *m,
                                    d as int,
                                    j as int + 1,
                                    y as int,
                                ) implies #[trigger] found@.contains(y) by {
                                if f0.contains(y) || added_to_found(
                                    *t,
                                    *m,
                                    d as int,
                                    j as int,
                                    y as int,
                                ) {
                                    assert(fb.contains(y));
                                    let k = choose|k: int| 0 <= k < fb.len() && fb[k] == y;
                                    assert(found@[k] == y);
                                } else {
                                    assert(y == j);
                                    assert(found@[found@.len() - 1] == j);
                                }
                            }
                        }
                    } else {
                        queue.push(j);
                        proof {
                            assert forall|y: usize| #[trigger] queue@.contains(y) implies (
                            q0.contains(y) || added_to_queue(
                                *t,
                                *m,
                                d as int,
                                j as int + 1,
                                y as int,
                            )) by {
                                if y != j {
                                    assert(qb.contains(y));
                                }
                            }
                            assert forall|y: usize|
                                q0.contains(y) || added_to_queue(
                                    *t,
                                    *m,
                                    d as int,
                                    j as int + 1,
                                    y as int,
                                ) implies #[trigger] queue@.contains(y) by {
                                if q0.contains(y) || added_to_queue(
                                    *t,
                                    *m,
                                    d as int,
                                    j as int,
                                    y as int,
                                ) {
                                    assert(qb.contains(y));
                                    let k = choose|k: int| 0 <= k < qb.len() && qb[k] == y;
                                    assert(queue@[k] == y);
                                } else {
                                    assert(y == j);
                                    assert(queue@[queue@.len() - 1] == j);
                                }
                            }
                            assert(queue@.subrange(0, q0.len() as int) =~= q0);
                        }
                    }
                }
                j += 1;
            }
        }
        head += 1;
        proof {
            let h1 = head as int;
            let q1 = queue@;
            assert forall|y: usize| #[trigger] q1.contains(y) implies on_queue(
                *t,
                *m,
                q1,
                h1,
                y as int,
            ) by {
                if d_readable {
                    if q0.contains(y) {
                        assert(on_queue(*t, *m, q0, h0, y as int));
                        if y != 0 {
                            let k = choose|k: int|
                                0 <= k < h0 && q0[k] as int == t.parent_of(y as int);
                            assert(q1[k] == q0[k]);
                            assert(in_prefix(q1, h1, t.parent_of(y as int)));
                        }
                    } else {
                        assert(added_to_queue(*t, *m, d as int, n as int, y as int));
                        assert(q1[h0] == q0[h0]);
                        assert(in_prefix(q1, h1, d as int));
                    }
                } else {
                    assert(q1 == q0);
                    assert(on_queue(*t, *m, q0, h0, y as int));
                    if y != 0 {
                        let k = choose|k: int|
                            0 <= k < h0 && q0[k] as int == t.parent_of(y as int);
                        assert(in_prefix(q1, h1, t.parent_of(y as int)));
                    }
                }
            }
            assert forall|y: usize| on_queue(*t, *m, q1, h1, y as int) implies #[trigger]
            q1.contains(y) by {
                if y == 0 {
                    assert(on_queue(*t, *m, q0, h0, 0));
                    assert(q0.contains(0usize));
                    let k = choose|k: int| 0 <= k < q0.len() && q0[k] == 0usize;
                    assert(q1[k] == 0usize);
                } else {
                    let k = choose|k: int| 0 <= k < h1 && q1[k] as int == t.parent_of(y as int);
                    if k < h0 {
                        assert(q0[k] == q1[k]);
                        assert(in_prefix(q0, h0, t.parent_of(y as int)));
                        assert(on_queue(*t, *m, q0, h0, y as int));
                        assert(q0.contains(y));
                        let k2 = choose|k2: int| 0 <= k2 < q0.len() && q0[k2] == y;
                        assert(q1[k2] == y);
                    } else {
                        assert(k == h0);
                        assert(q1[h0] == q0[h0]);
                        assert(t.parent_of(y as int) == d as int);
                        assert(t.node(d as int).readable);
                        assert(d_readable);
                        assert(added_to_queue(*t, *m, d as int, n as int, y as int));
                        assert(queue@.contains(y));
                    }
                }
            }
            assert forall|y: usize| #[trigger] found@.contains(y) implies in_found(
                *t,
                *m,
                q1,
                h1,
                y as int,
            ) by {
                if d_readable {
                    if f0.contains(y) {
                        assert(in_found(*t, *m, q0, h0, y as int));
                        let k = choose|k: int|
                            0 <= k < h0 && q0[k] as int == t.parent_of(y as int);
                        assert(q1[k] == q0[k]);
                        assert(in_prefix(q1, h1, t.parent_of(y as int)));
                    } else {
                        assert(added_to_found(*t, *m, d as int, n as int, y as int));
                        assert(q1[h0] == q0[h0]);
                        assert(in_prefix(q1, h1, d as int));
                    }
                } else {
                    assert(in_found(*t, *m, q0, h0, y as int));
                    let k = choose|k: int| 0 <= k < h0 && q0[k] as int == t.parent_of(y as int);
                    assert(q1[k] == q0[k]);
                    assert(in_prefix(q1, h1, t.parent_of(y as int)));
                }
            }
            assert forall|y: usize| in_found(*t, *m, q1, h1, y as int) implies #[trigger]
            found@.contains(y) by {
                let k = choose|k: int| 0 <= k < h1 && q1[k] as int == t.parent_of(y as int);
                if k < h0 {
                    assert(q0[k] == q1[k]);
                    assert(in_prefix(q0, h0, t.parent_of(y as int)));
                    assert(in_found(*t, *m, q0, h0, y as int));
                    assert(f0.contains(y));
                    if d_readable {
                        let k2 = choose|k2: int| 0 <= k2 < f0.len() && f0[k2] == y;
                        assert(found@.contains(y));
                    }
                } else {
                    assert(k == h0);
                    assert(q1[h0] == q0[h0]);
                    assert(t.parent_of(y as int) == d as int);
                    assert(t.node(d as int).readable);
                    assert(queue_elem_ok(*t, *m, d));
                    assert(d_readable);
                    assert(added_to_found(*t, *m, d as int, n as int, y as int));
                    assert(found@.contains(y));
                }
            }
            assert forall|k: int| 0 <= k < queue@.len() implies (queue@[k] as nat)
                < n as nat by {
                assert(queue_elem_ok(*t, *m, queue@[k]));
            }
            lemma_distinct_bounded_len(queue@, n as nat);
        }
    }
    proof {
        assert forall|x: int| matched(*t, *m, x) implies found@.contains(x as usize) by {
            assert(t.nodes.len() == t.nodes@.len());
            let p = t.parent_of(x);
            let pu = t.node(x).parent;
            assert(pu as int == p);
            assert(discovered(*t, *m, p) && t.node(p).readable && !selected(*t, *m, p));
            assert(t.node(p).is_dir);
            lemma_queue_complete(*t, *m, queue@, pu);
            let k = choose|k: int| 0 <= k < queue@.len() && queue@[k] == pu;
            assert(in_prefix(queue@, head as int, p));
            assert(in_found(*t, *m, queue@, head as int, x));
            assert((x as usize) as int == x);
        }
    }
    found
}

/// A proper ancestor of a reached node is never itself a match candidate:
/// the walk stops at the first match on every branch.
pub proof fn lemma_ancestor_not_selected(t: FsTree, m: PathMatcher, i: int, j: int)
    requires
        t.wf(),
        t.valid_index(j),
        discovered(t, m, j),
        t.strict_ancestor(i, j),
    ensures
        !selected(t, m, i),
    decreases j,
{
    let p = t.parent_of(j);
    if p == i {
        assert(!selected(t, m, p));
    } else {
        lemma_ancestor_not_selected(t, m, i, p);
    }
}

/// The matched root set is prefix-free: no matched root's path is a prefix
/// (ancestor) of another matched root's path.
pub proof fn lemma_matched_paths_prefix_free(t: FsTree, m: PathMatcher, i: int, j: int)
    requires
        t.wf(),
        matched(t, m, i),
        matched(t, m, j),
        i != j,
    ensures
        !t.path_of(i).is_prefix_of(t.path_of(j)),
{
    if t.path_of(i).is_prefix_of(t.path_of(j)) {
        lemma_prefix_is_ancestor(t, i, j);
        lemma_ancestor_not_selected(t, m, i, j);
    }
}

/// Every matched root's path is non-empty and its final segment names an
/// artifact directory, case-insensitively.
pub proof fn lemma_matched_segment_matches(t: FsTree, m: PathMatcher, i: int)
    requires
        t.wf(),
        matched(t, m, i),
    ensures
        t.path_of(i).len() > 0,
        m.spec_matches(t.path_of(i)),
{
    crate::tree::lemma_path_len(t, i);
    assert(t.path_of(i).last() == t.node(i).name@);
}

/// Scanning an unmodified snapshot is idempotent: any two results that meet
/// the scanner's contract are equal as sets.
pub proof fn lemma_scan_deterministic(
    t: FsTree,
    m: PathMatcher,
    r1: Seq<usize>,
    r2: Seq<usize>,
)
    requires
        forall|k: int| 0 <= k < r1.len() ==> matched_at(t, m, #[trigger] r1[k]),
        forall|x: int| matched(t, m, x) ==> r1.contains(x as usize),
        forall|k: int| 0 <= k < r2.len() ==> matched_at(t, m, #[trigger] r2[k]),
        forall|x: int| matched(t, m, x) ==> r2.contains(x as usize),
    ensures
        r1.to_set() == r2.to_set(),
{
    assert forall|y: usize| #[trigger] r1.to_set().contains(y) implies r2.to_set().contains(
        y,
    ) by {
        let k = choose|k: int| 0 <= k < r1.len() && r1[k] == y;
        assert(matched_at(t, m, y));
        assert(r2.contains(y));
    }
    assert forall|y: usize| #[trigger] r2.to_set().contains(y) implies r1.to_set().contains(
        y,
    ) by {
        let k = choose|k: int| 0 <= k < r2.len() && r2[k] == y;
        assert(matched_at(t, m, y));
        assert(r1.contains(y));
    }
    assert(r1.to_set() =~= r2.to_set());
}

} // verus!
