//! The descendant relation induced by the registry's recorded children:
//! the set of pids torn down by a cascading termination, and the lemmas
//! that let the kernel reason about removing whole subtrees from its
//! tables.

use vstd::prelude::*;

use crate::kernel::ProcessInfo;

verus! {

/// The set of pids a cascading termination of `root` visits: `root` itself
/// plus, transitively, every pid recorded as a child of a visited entry.
///
/// `bound` caps the recursion; with the kernel's next-pid counter as the
/// bound, the guards `parent < child < bound` are always satisfied by a
/// well-formed registry, where every recorded child lies strictly between
/// its parent and the counter.
pub open spec fn subtree(infos: Map<u32, ProcessInfo>, root: u32, bound: int) -> Set<u32>
    decreases bound - root, 1int, 0int,
{
    if infos.contains_key(root) {
        set![root].union(
            children_subtrees(
                infos,
                infos[root].children_processes@,
                root,
                bound,
                infos[root].children_processes@.len() as int,
            ),
        )
    } else {
        set![root]
    }
}

/// The union of the subtrees rooted at the first `i` entries of a child
/// list, skipping entries that violate the `parent < child < bound` guard.
pub open spec fn children_subtrees(
    infos: Map<u32, ProcessInfo>,
    children: Seq<u32>,
    parent: u32,
    bound: int,
    i: int,
) -> Set<u32>
    decreases bound - parent, 0int, i,
{
    if i <= 0 || i > children.len() {
        Set::empty()
    } else {
        let c = children[i - 1];
        children_subtrees(infos, children, parent, bound, i - 1).union(
            if parent < c && c < bound {
                subtree(infos, c, bound)
            } else {
                Set::empty()
            },
        )
    }
}

/// A subtree always contains its root.
pub proof fn lemma_subtree_root(infos: Map<u32, ProcessInfo>, root: u32, bound: int)
    ensures
        subtree(infos, root, bound).contains(root),
{
}

/// Membership in a partial union of child subtrees is membership in one of
/// the guarded child subtrees it covers.
pub proof fn lemma_children_subtrees_mem(
    infos: Map<u32, ProcessInfo>,
    children: Seq<u32>,
    parent: u32,
    bound: int,
    i: int,
    d: u32,
)
    requires
        i <= children.len(),
    ensures
        children_subtrees(infos, children, parent, bound, i).contains(d) <==> exists|j: int|
            0 <= j < i && j < children.len() && parent < children[j] && children[j] < bound
                && subtree(infos, #[trigger] children[j], bound).contains(d),
    decreases i,
{
    if 0 < i <= children.len() {
        lemma_children_subtrees_mem(infos, children, parent, bound, i - 1, d);
        let c = children[i - 1];
        if parent < c && c < bound && subtree(infos, c, bound).contains(d) {
            assert(children_subtrees(infos, children, parent, bound, i).contains(d));
        }
    }
}

/// Every member of a subtree is at least its root.
pub proof fn lemma_subtree_geq(infos: Map<u32, ProcessInfo>, root: u32, bound: int, d: u32)
    requires
        subtree(infos, root, bound).contains(d),
    ensures
        d >= root,
    decreases bound - root, 1int, 0int,
{
    if infos.contains_key(root) && d != root {
        let children = infos[root].children_processes@;
        lemma_children_subtrees_mem(infos, children, root, bound, children.len() as int, d);
        let j = choose|j: int|
            0 <= j < children.len() && root < children[j] && children[j] < bound && subtree(
                infos,
                #[trigger] children[j],
                bound,
            ).contains(d);
        lemma_subtree_geq(infos, children[j], bound, d);
    }
}

/// A subtree of a subtree member is contained in the subtree.
pub proof fn lemma_subtree_trans(
    infos: Map<u32, ProcessInfo>,
    root: u32,
    bound: int,
    x: u32,
    d: u32,
)
    requires
        subtree(infos, root, bound).contains(x),
        subtree(infos, x, bound).contains(d),
    ensures
        subtree(infos, root, bound).contains(d),
    decreases bound - root, 1int, 0int,
{
    if x != root {
        let children = infos[root].children_processes@;
        lemma_children_subtrees_mem(infos, children, root, bound, children.len() as int, x);
        let j = choose|j: int|
            0 <= j < children.len() && root < children[j] && children[j] < bound && subtree(
                infos,
                #[trigger] children[j],
                bound,
            ).contains(x);
        lemma_subtree_trans(infos, children[j], bound, x, d);
        lemma_children_subtrees_mem(infos, children, root, bound, children.len() as int, d);
    }
}

/// Subtree membership carries over to any map that agrees on every entry of
/// the smaller one.
pub proof fn lemma_subtree_submap(
    m1: Map<u32, ProcessInfo>,
    m2: Map<u32, ProcessInfo>,
    root: u32,
    bound: int,
    d: u32,
)
    requires
        forall|p: u32| #[trigger]
            m1.contains_key(p) ==> m2.contains_key(p) && m2[p] == m1[p],
        subtree(m1, root, bound).contains(d),
    ensures
        subtree(m2, root, bound).contains(d),
    decreases bound - root, 1int, 0int,
{
    if d != root {
        let children = m1[root].children_processes@;
        lemma_children_subtrees_mem(m1, children, root, bound, children.len() as int, d);
        let j = choose|j: int|
            0 <= j < children.len() && root < children[j] && children[j] < bound && subtree(
                m1,
                #[trigger] children[j],
                bound,
            ).contains(d);
        lemma_subtree_submap(m1, m2, children[j], bound, d);
        lemma_children_subtrees_mem(
            m2,
            m2[root].children_processes@,
            root,
            bound,
            m2[root].children_processes@.len() as int,
            d,
        );
    }
}

/// Removing a set of keys that is closed under taking subtrees (within the
/// subtree of `root`) does not cut any surviving member off from `root`.
pub proof fn lemma_subtree_remove_complete(
    m: Map<u32, ProcessInfo>,
    removed: Set<u32>,
    root: u32,
    bound: int,
    d: u32,
)
    requires
        !removed.contains(root),
        !removed.contains(d),
        subtree(m, root, bound).contains(d),
        forall|x: u32, e: u32|
            removed.contains(x) && subtree(m, root, bound).contains(x) && subtree(
                m,
                x,
                bound,
            ).contains(e) ==> removed.contains(e),
    ensures
        subtree(m.remove_keys(removed), root, bound).contains(d),
    decreases bound - root, 1int, 0int,
{
    let m2 = m.remove_keys(removed);
    if d != root {
        let children = m[root].children_processes@;
        lemma_children_subtrees_mem(m, children, root, bound, children.len() as int, d);
        let j = choose|j: int|
            0 <= j < children.len() && root < children[j] && children[j] < bound && subtree(
                m,
                #[trigger] children[j],
                bound,
            ).contains(d);
        let c = children[j];
        lemma_subtree_root(m, c, bound);
        lemma_children_subtrees_mem(m, children, root, bound, children.len() as int, c);
        assert(subtree(m, root, bound).contains(c));
        if removed.contains(c) {
            assert(removed.contains(d));
            assert(false);
        }
        assert forall|x: u32, e: u32|
            removed.contains(x) && subtree(m, c, bound).contains(x) && subtree(
                m,
                x,
                bound,
            ).contains(e) implies removed.contains(e) by {
            lemma_subtree_trans(m, root, bound, c, x);
        }
        lemma_subtree_remove_complete(m, removed, c, bound, d);
        assert(m2.contains_key(root));
        assert(m2[root] == m[root]);
        lemma_children_subtrees_mem(
            m2,
            m2[root].children_processes@,
            root,
            bound,
            m2[root].children_processes@.len() as int,
            d,
        );
    } else {
        lemma_subtree_root(m2, root, bound);
    }
}


/// Well-formedness of the metadata table alone: every registered pid lies
/// below the next-pid counter, entries agree with their keys, parents
/// precede their children, every recorded child lies strictly between its
/// parent and the counter, and no pid is recorded as a child twice.
pub open spec fn info_wf(infos: Map<u32, ProcessInfo>, next: u32) -> bool {
    &&& forall|p: u32| #[trigger]
        infos.contains_key(p) ==> p < next && infos[p].pid == p
    &&& forall|p: u32| #[trigger]
        infos.contains_key(p) ==> match infos[p].parent_pid {
            Some(q) => q < p,
            None => true,
        }
    &&& forall|p: u32, j: int|
        infos.contains_key(p) && 0 <= j < infos[p].children_processes@.len()
            ==> p < (#[trigger] infos[p].children_processes@[j])
            && infos[p].children_processes@[j] < next
    &&& forall|p: u32, q: u32, j: int, k: int|
        infos.contains_key(p) && infos.contains_key(q)
            && 0 <= j < infos[p].children_processes@.len()
            && 0 <= k < infos[q].children_processes@.len()
            && (#[trigger] infos[p].children_processes@[j])
                == (#[trigger] infos[q].children_processes@[k])
            ==> p == q && j == k
}

/// Metadata well-formedness survives dropping entries.
pub proof fn lemma_info_wf_submap(big: Map<u32, ProcessInfo>, small: Map<u32, ProcessInfo>, next: u32)
    requires
        info_wf(big, next),
        forall|p: u32| #[trigger]
            small.contains_key(p) ==> big.contains_key(p) && small[p] == big[p],
    ensures
        info_wf(small, next),
{
    assert forall|p: u32| #[trigger] small.contains_key(p) implies p < next && small[p].pid
        == p by {
        assert(big.contains_key(p));
    }
    assert forall|p: u32| #[trigger] small.contains_key(p) implies match small[p].parent_pid {
        Some(q) => q < p,
        None => true,
    } by {
        assert(big.contains_key(p));
    }
    assert forall|p: u32, j: int|
        small.contains_key(p) && 0 <= j < small[p].children_processes@.len() implies p < (
    #[trigger] small[p].children_processes@[j]) && small[p].children_processes@[j] < next by {
        assert(big.contains_key(p));
        assert(big[p].children_processes@[j] == small[p].children_processes@[j]);
    }
    assert forall|p: u32, q: u32, j: int, k: int|
        small.contains_key(p) && small.contains_key(q) && 0 <= j
            < small[p].children_processes@.len() && 0 <= k < small[q].children_processes@.len()
            && (#[trigger] small[p].children_processes@[j]) == (
    #[trigger] small[q].children_processes@[k]) implies p == q && j == k by {
        assert(big.contains_key(p));
        assert(big.contains_key(q));
        assert(big[p].children_processes@[j] == small[p].children_processes@[j]);
        assert(big[q].children_processes@[k] == small[q].children_processes@[k]);
    }
}

/// Every subtree member other than the root is recorded as a child of some
/// member.
pub proof fn lemma_subtree_provenance(m: Map<u32, ProcessInfo>, root: u32, bound: int, d: u32)
    requires
        subtree(m, root, bound).contains(d),
        d != root,
    ensures
        exists|y: u32, s: int|
            subtree(m, root, bound).contains(y) && m.contains_key(y) && 0 <= s < m[y].children_processes@.len() && (#[trigger] m[y].children_processes@[s]) == d,
    decreases bound - root, 1int, 0int,
{
    let children = m[root].children_processes@;
    lemma_children_subtrees_mem(m, children, root, bound, children.len() as int, d);
    let j = choose|j: int|
        0 <= j < children.len() && root < children[j] && children[j] < bound && subtree(
            m,
            #[trigger] children[j],
            bound,
        ).contains(d);
    let c = children[j];
    lemma_subtree_root(m, root, bound);
    if d == c {
        assert(subtree(m, root, bound).contains(root) && m.contains_key(root) && 0 <= j < (
        m[root].children_processes@).len() && m[root].children_processes@[j] == d);
    } else {
        lemma_subtree_provenance(m, c, bound, d);
        let (y, s): (u32, int) = choose|y: u32, s: int|
            subtree(m, c, bound).contains(y) && m.contains_key(y) && 0 <= s < m[y].children_processes@.len() && (#[trigger] m[y].children_processes@[s]) == d;
        lemma_subtree_root(m, c, bound);
        lemma_children_subtrees_mem(m, children, root, bound, children.len() as int, c);
        assert(subtree(m, root, bound).contains(c));
        lemma_subtree_trans(m, root, bound, c, y);
        assert(subtree(m, root, bound).contains(y) && m.contains_key(y) && 0 <= s < (
        m[y].children_processes@).len() && m[y].children_processes@[s] == d);
    }
}


/// Subtree membership only depends on the entries at or above the root.
pub proof fn lemma_subtree_agree_above(
    m1: Map<u32, ProcessInfo>,
    m2: Map<u32, ProcessInfo>,
    root: u32,
    bound: int,
    d: u32,
)
    requires
        forall|p: u32|
            p >= root ==> (#[trigger] m1.contains_key(p) <==> m2.contains_key(p))
                && (m1.contains_key(p) ==> m1[p] == m2[p]),
        subtree(m1, root, bound).contains(d),
    ensures
        subtree(m2, root, bound).contains(d),
    decreases bound - root, 1int, 0int,
{
    if d != root {
        let children = m1[root].children_processes@;
        lemma_children_subtrees_mem(m1, children, root, bound, children.len() as int, d);
        let j = choose|j: int|
            0 <= j < children.len() && root < children[j] && children[j] < bound && subtree(
                m1,
                #[trigger] children[j],
                bound,
            ).contains(d);
        assert forall|p: u32|
            p >= children[j] implies (#[trigger] m1.contains_key(p) <==> m2.contains_key(p))
                && (m1.contains_key(p) ==> m1[p] == m2[p]) by {
            assert(p >= root);
        }
        lemma_subtree_agree_above(m1, m2, children[j], bound, d);
        lemma_children_subtrees_mem(
            m2,
            m2[root].children_processes@,
            root,
            bound,
            m2[root].children_processes@.len() as int,
            d,
        );
    } else {
        lemma_subtree_root(m2, root, bound);
    }
}

} // verus!
