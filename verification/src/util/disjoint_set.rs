//! Union-find with three path-compaction policies, and an undoable wrapper
//! with save/restore checkpoints.
//!
//! Each node carries a parent index (`id`) and a rank. Ranks strictly
//! increase along parent chains, which both proves termination of root
//! lookups and supports union by rank. The `components` counter always
//! equals the number of set representatives (roots).

use vstd::prelude::*;
use vstd::set_lib::{lemma_int_range, set_int_range};
use core::marker::PhantomData;

verus! {

broadcast use vstd::set::group_set_axioms;

/// One union-find node: a parent pointer and a rank.
#[derive(Clone, Copy, PartialEq, Eq, Structural, Debug)]
pub struct Node {
    pub id: usize,
    pub rank: u64,
}

/// Structural well-formedness of a parent forest: parent indexes are in
/// range, and ranks strictly increase along parent edges.
pub open spec fn ds_nodes_wf(nodes: Seq<Node>) -> bool {
    forall|i: int|
        0 <= i < nodes.len() ==> {
            &&& (#[trigger] nodes[i]).id < nodes.len()
            &&& (nodes[i].id as int != i ==> nodes[i].rank < nodes[nodes[i].id as int].rank)
        }
}

/// The representative of `i`'s set: follow parent pointers to the root.
pub open spec fn root_of(nodes: Seq<Node>, i: int) -> usize
    decreases u64::MAX - nodes[i].rank,
        when ds_nodes_wf(nodes) && 0 <= i < nodes.len()
{
    if nodes[i].id as int == i {
        i as usize
    } else {
        root_of(nodes, nodes[i].id as int)
    }
}

/// Two nodes are in the same set when they share a representative.
pub open spec fn same_set(nodes: Seq<Node>, i: int, j: int) -> bool {
    root_of(nodes, i) == root_of(nodes, j)
}

/// The set of representatives.
pub open spec fn roots_set(nodes: Seq<Node>) -> Set<int> {
    Set::new(|i: int| 0 <= i < nodes.len() && nodes[i].id as int == i)
}

/// The root that survives a union of `i`'s and `j`'s sets: the
/// higher-rank root, with ties keeping `i`'s root as the parent.
pub open spec fn union_parent(nodes: Seq<Node>, i: int, j: int) -> int {
    let ri = root_of(nodes, i) as int;
    let rj = root_of(nodes, j) as int;
    if nodes[ri].rank < nodes[rj].rank {
        rj
    } else {
        ri
    }
}

/// The root that is attached under the surviving root.
pub open spec fn union_child(nodes: Seq<Node>, i: int, j: int) -> int {
    let ri = root_of(nodes, i) as int;
    let rj = root_of(nodes, j) as int;
    if nodes[ri].rank < nodes[rj].rank {
        ri
    } else {
        rj
    }
}

/// The forest after linking the child root under the parent root and
/// incrementing the parent's rank.
pub open spec fn linked_nodes(nodes: Seq<Node>, i: int, j: int) -> Seq<Node> {
    let p = union_parent(nodes, i, j);
    let c = union_child(nodes, i, j);
    nodes.update(c, Node { id: p as usize, rank: nodes[c].rank }).update(
        p,
        Node { id: nodes[p].id, rank: (nodes[p].rank + 1) as u64 },
    )
}

/// Any well-formed forest with at least one node has at least one root.
pub proof fn lemma_roots_nonempty(nodes: Seq<Node>)
    requires
        ds_nodes_wf(nodes),
        nodes.len() >= 1,
        roots_set(nodes).finite(),
    ensures
        roots_set(nodes).len() >= 1,
{
    lemma_root(nodes, 0);
    let r = root_of(nodes, 0) as int;
    assert(roots_set(nodes).contains(r));
    assert(roots_set(nodes).remove(r).len() >= 0);
}

/// The initial forest: every node is its own root with rank 1.
pub open spec fn init_nodes(n: usize) -> Seq<Node> {
    Seq::new(n as nat, |i: int| Node { id: i as usize, rank: 1u64 })
}

/// Full state invariant: a well-formed forest whose `components` counter
/// equals the number of roots, with ranks bounded so that a union can
/// always increment the surviving root's rank.
pub open spec fn ds_state_ok(nodes: Seq<Node>, components: int) -> bool {
    &&& ds_nodes_wf(nodes)
    &&& roots_set(nodes).finite()
    &&& components == roots_set(nodes).len()
    &&& forall|i: int|
        0 <= i < nodes.len() ==> (#[trigger] nodes[i]).rank + components <= nodes.len() + 1
}

/// The representative of `i` is a root of at least `i`'s rank, strictly
/// greater when `i` is not itself the root, and in `i`'s set.
pub proof fn lemma_root(nodes: Seq<Node>, i: int)
    requires
        ds_nodes_wf(nodes),
        0 <= i < nodes.len(),
    ensures
        ({
            let r = root_of(nodes, i) as int;
            &&& 0 <= r < nodes.len()
            &&& nodes[r].id as int == r
            &&& nodes[r].rank >= nodes[i].rank
            &&& (r != i ==> nodes[r].rank > nodes[i].rank)
            &&& root_of(nodes, r) == root_of(nodes, i)
        }),
    decreases u64::MAX - nodes[i].rank,
{
    if nodes[i].id as int != i {
        lemma_root(nodes, nodes[i].id as int);
    }
}

/// Re-pointing a node at any member of its own set of strictly higher rank
/// preserves well-formedness, every rank, every node's root, and which
/// nodes are roots.
pub proof fn lemma_repoint(nodes: Seq<Node>, x: int, y: usize)
    requires
        ds_nodes_wf(nodes),
        0 <= x < nodes.len(),
        0 <= y < nodes.len(),
        root_of(nodes, y as int) == root_of(nodes, x),
        nodes[y as int].rank > nodes[x].rank,
    ensures
        ({
            let n2 = nodes.update(x, Node { id: y, rank: nodes[x].rank });
            &&& ds_nodes_wf(n2)
            &&& forall|a: int| 0 <= a < nodes.len() ==> root_of(n2, a) == root_of(nodes, a)
        }),
{
    let n2 = nodes.update(x, Node { id: y, rank: nodes[x].rank });
    assert(ds_nodes_wf(n2)) by {
        assert forall|i: int| 0 <= i < n2.len() implies {
            &&& (#[trigger] n2[i]).id < n2.len()
            &&& (n2[i].id as int != i ==> n2[i].rank < n2[n2[i].id as int].rank)
        } by {
            assert(nodes[i].id < nodes.len());
        }
    }
    assert forall|a: int| 0 <= a < nodes.len() implies root_of(n2, a) == root_of(nodes, a) by {
        lemma_repoint_root(nodes, x, y, a);
    }
}

/// Helper for [`lemma_repoint`]: root preservation for one start node, by
/// induction up the parent chain.
proof fn lemma_repoint_root(nodes: Seq<Node>, x: int, y: usize, a: int)
    requires
        ds_nodes_wf(nodes),
        0 <= x < nodes.len(),
        0 <= y < nodes.len(),
        root_of(nodes, y as int) == root_of(nodes, x),
        nodes[y as int].rank > nodes[x].rank,
        0 <= a < nodes.len(),
        ds_nodes_wf(nodes.update(x, Node { id: y, rank: nodes[x].rank })),
    ensures
        root_of(nodes.update(x, Node { id: y, rank: nodes[x].rank }), a) == root_of(nodes, a),
    decreases u64::MAX - nodes[a].rank,
{
    let n2 = nodes.update(x, Node { id: y, rank: nodes[x].rank });
    if a == x {
        // x cannot be a root: its set holds y, of strictly higher rank
        lemma_root(nodes, y as int);
        assert(nodes[a].id as int != a);
        lemma_repoint_root(nodes, x, y, y as int);
        lemma_root(nodes, a);
    } else {
        if nodes[a].id as int == a {
        } else {
            lemma_repoint_root(nodes, x, y, nodes[a].id as int);
        }
    }
}

/// Linking root `c` under root `p` (and incrementing `p`'s rank) preserves
/// well-formedness and redirects exactly the nodes rooted at `c` to `p`.
pub proof fn lemma_link(nodes: Seq<Node>, c: int, p: int)
    requires
        ds_nodes_wf(nodes),
        0 <= c < nodes.len(),
        0 <= p < nodes.len(),
        c != p,
        nodes[c].id as int == c,
        nodes[p].id as int == p,
        nodes[c].rank <= nodes[p].rank,
        nodes[p].rank < u64::MAX,
    ensures
        ({
            let n2 = nodes.update(c, Node { id: p as usize, rank: nodes[c].rank }).update(
                p,
                Node { id: nodes[p].id, rank: (nodes[p].rank + 1) as u64 },
            );
            &&& ds_nodes_wf(n2)
            &&& forall|a: int|
                0 <= a < nodes.len() ==> root_of(n2, a) == (if root_of(nodes, a) as int == c {
                    p as usize
                } else {
                    root_of(nodes, a)
                })
        }),
{
    let n2 = nodes.update(c, Node { id: p as usize, rank: nodes[c].rank }).update(
        p,
        Node { id: nodes[p].id, rank: (nodes[p].rank + 1) as u64 },
    );
    assert(ds_nodes_wf(n2)) by {
        assert forall|i: int| 0 <= i < n2.len() implies {
            &&& (#[trigger] n2[i]).id < n2.len()
            &&& (n2[i].id as int != i ==> n2[i].rank < n2[n2[i].id as int].rank)
        } by {
            assert(nodes[i].id < nodes.len());
        }
    }
    assert forall|a: int| 0 <= a < nodes.len() implies root_of(n2, a) == (if root_of(
        nodes,
        a,
    ) as int == c {
        p as usize
    } else {
        root_of(nodes, a)
    }) by {
        lemma_link_root(nodes, c, p, a);
    }
}

/// Helper for [`lemma_link`]: the new root of one start node, by induction
/// up the parent chain.
proof fn lemma_link_root(nodes: Seq<Node>, c: int, p: int, a: int)
    requires
        ds_nodes_wf(nodes),
        0 <= c < nodes.len(),
        0 <= p < nodes.len(),
        c != p,
        nodes[c].id as int == c,
        nodes[p].id as int == p,
        nodes[c].rank <= nodes[p].rank,
        nodes[p].rank < u64::MAX,
        0 <= a < nodes.len(),
        ds_nodes_wf(
            nodes.update(c, Node { id: p as usize, rank: nodes[c].rank }).update(
                p,
                Node { id: nodes[p].id, rank: (nodes[p].rank + 1) as u64 },
            ),
        ),
    ensures
        root_of(
            nodes.update(c, Node { id: p as usize, rank: nodes[c].rank }).update(
                p,
                Node { id: nodes[p].id, rank: (nodes[p].rank + 1) as u64 },
            ),
            a,
        ) == (if root_of(nodes, a) as int == c {
            p as usize
        } else {
            root_of(nodes, a)
        }),
    decreases u64::MAX - nodes[a].rank,
{
    let n2 = nodes.update(c, Node { id: p as usize, rank: nodes[c].rank }).update(
        p,
        Node { id: nodes[p].id, rank: (nodes[p].rank + 1) as u64 },
    );
    if a == c {
        assert(n2[a].id as int == p);
        assert(root_of(n2, p) == p);
    } else if a == p {
    } else {
        if nodes[a].id as int == a {
        } else {
            lemma_link_root(nodes, c, p, nodes[a].id as int);
        }
    }
}

/// The shared contract of every disjoint-set structure in this module:
/// `find` reports the representative without changing the partition,
/// `union` merges exactly the two named sets, and `components` counts the
/// sets.
pub trait DisjointSet: Sized {
    spec fn wf(&self) -> bool;

    spec fn spec_nodes(&self) -> Seq<Node>;

    spec fn spec_components(&self) -> int;

    fn new(components: usize) -> (s: Self)
        ensures
            s.wf(),
            s.spec_nodes() == init_nodes(components),
            s.spec_components() == components,
    ;

    fn find(&mut self, id: usize) -> (r: usize)
        requires
            old(self).wf(),
            id < old(self).spec_nodes().len(),
        ensures
            final(self).wf(),
            final(self).spec_nodes().len() == old(self).spec_nodes().len(),
            final(self).spec_components() == old(self).spec_components(),
            forall|a: int|
                0 <= a < old(self).spec_nodes().len() ==> root_of(final(self).spec_nodes(), a)
                    == root_of(old(self).spec_nodes(), a),
            r == root_of(old(self).spec_nodes(), id as int),
            r < old(self).spec_nodes().len(),
    ;

    fn union(&mut self, i: usize, j: usize)
        requires
            old(self).wf(),
            i < old(self).spec_nodes().len(),
            j < old(self).spec_nodes().len(),
        ensures
            final(self).wf(),
            final(self).spec_nodes().len() == old(self).spec_nodes().len(),
            forall|a: int, b: int|
                0 <= a < old(self).spec_nodes().len() && 0 <= b < old(self).spec_nodes().len()
                    ==> (#[trigger] same_set(final(self).spec_nodes(), a, b) <==> (same_set(
                    old(self).spec_nodes(),
                    a,
                    b,
                ) || (same_set(old(self).spec_nodes(), a, i as int) && same_set(
                    old(self).spec_nodes(),
                    b,
                    j as int,
                )) || (same_set(old(self).spec_nodes(), a, j as int) && same_set(
                    old(self).spec_nodes(),
                    b,
                    i as int,
                )))),
            final(self).spec_components() == (if same_set(
                old(self).spec_nodes(),
                i as int,
                j as int,
            ) {
                old(self).spec_components()
            } else {
                old(self).spec_components() - 1
            }),
    ;

    fn are_connected(&mut self, i: usize, j: usize) -> (r: bool)
        requires
            old(self).wf(),
            i < old(self).spec_nodes().len(),
            j < old(self).spec_nodes().len(),
        ensures
            final(self).wf(),
            final(self).spec_nodes().len() == old(self).spec_nodes().len(),
            final(self).spec_components() == old(self).spec_components(),
            forall|a: int|
                0 <= a < old(self).spec_nodes().len() ==> root_of(final(self).spec_nodes(), a)
                    == root_of(old(self).spec_nodes(), a),
            r == same_set(old(self).spec_nodes(), i as int, j as int),
    ;

    fn components(&self) -> (r: usize)
        requires
            self.wf(),
        ensures
            r == self.spec_components(),
    ;

    /// The number of nodes.
    fn size(&self) -> (r: usize)
        ensures
            r == self.spec_nodes().len(),
    ;

    /// A well-formed structure always holds a well-formed forest whose
    /// counter counts its roots.
    proof fn lemma_wf(&self)
        requires
            self.wf(),
        ensures
            ds_state_ok(self.spec_nodes(), self.spec_components()),
    ;
}

/// A path-compaction policy: how `find` rewrites parent pointers on its way
/// to the root. Policies change the amortized cost of `find`, never the
/// partition.
pub trait FindMode: Sized {
    /// Find the root of `i`, compacting the path by this policy.
    fn find_node(nodes: &mut Vec<Node>, i: usize) -> (r: usize)
        requires
            ds_nodes_wf(old(nodes)@),
            i < old(nodes)@.len(),
        ensures
            ds_nodes_wf(final(nodes)@),
            final(nodes)@.len() == old(nodes)@.len(),
            forall|k: int|
                0 <= k < old(nodes)@.len() ==> (#[trigger] final(nodes)@[k]).rank == old(
                    nodes,
                )@[k].rank,
            forall|k: int|
                0 <= k < old(nodes)@.len() ==> ((#[trigger] final(nodes)@[k]).id as int == k <==> old(
                    nodes,
                )@[k].id as int == k),
            forall|a: int|
                0 <= a < old(nodes)@.len() ==> root_of(final(nodes)@, a) == root_of(old(nodes)@, a),
            r == root_of(old(nodes)@, i as int),
            r < old(nodes)@.len(),
    ;
}

/// Recursive full path compression: after `find`, every node on the path
/// points directly at the root.
#[derive(Clone, Copy, Eq, PartialEq, Structural, Debug)]
pub struct PathCompression;

/// Iterative path halving: every other node on the path is re-pointed to
/// its grandparent.
#[derive(Clone, Copy, Eq, PartialEq, Structural, Debug)]
pub struct PathHalving;

/// Iterative path splitting: each visited node past the start is
/// re-pointed to its grandparent.
#[derive(Clone, Copy, Eq, PartialEq, Structural, Debug)]
pub struct PathSplitting;

impl FindMode for PathCompression {
    fn find_node(nodes: &mut Vec<Node>, i: usize) -> (r: usize)
        decreases u64::MAX - nodes@[i as int].rank,
    {
        let parent = nodes[i].id;
        if parent == i {
            i
        } else {
            proof {
                lemma_root(nodes@, i as int);
            }
            let r = Self::find_node(nodes, parent);
            let rank_i = nodes[i].rank;
            proof {
                lemma_root(old(nodes)@, i as int);
                assert(root_of(nodes@, r as int) == root_of(nodes@, i as int));
                assert(nodes@[r as int].rank > nodes@[i as int].rank);
                lemma_repoint(nodes@, i as int, r);
            }
            let ghost pre = nodes@;
            nodes.set(i, Node { id: r, rank: rank_i });
            proof {
                assert(nodes@ == pre.update(i as int, Node { id: r, rank: pre[i as int].rank }));
            }
            r
        }
    }
}

impl FindMode for PathHalving {
    fn find_node(nodes: &mut Vec<Node>, i: usize) -> (r: usize) {
        let ghost orig = nodes@;
        let mut id = i;
        loop
            invariant
                ds_nodes_wf(nodes@),
                nodes@.len() == orig.len(),
                id < orig.len(),
                forall|k: int|
                    0 <= k < orig.len() ==> (#[trigger] nodes@[k]).rank == orig[k].rank,
                forall|k: int|
                    0 <= k < orig.len() ==> ((#[trigger] nodes@[k]).id as int == k <==> orig[k].id
                        as int == k),
                forall|a: int| 0 <= a < orig.len() ==> root_of(nodes@, a) == root_of(orig, a),
                root_of(nodes@, id as int) == root_of(orig, i as int),
            ensures
                ds_nodes_wf(nodes@),
                nodes@.len() == orig.len(),
                forall|k: int|
                    0 <= k < orig.len() ==> (#[trigger] nodes@[k]).rank == orig[k].rank,
                forall|k: int|
                    0 <= k < orig.len() ==> ((#[trigger] nodes@[k]).id as int == k <==> orig[k].id
                        as int == k),
                forall|a: int| 0 <= a < orig.len() ==> root_of(nodes@, a) == root_of(orig, a),
                id == root_of(orig, i as int),
                id < orig.len(),
            decreases u64::MAX - nodes@[id as int].rank,
        {
            let parent = nodes[id].id;
            if parent == id {
                proof {
                    assert(root_of(nodes@, id as int) == id);
                }
                break;
            }
            let gp = nodes[parent].id;
            let rank_id = nodes[id].rank;
            proof {
                let ns = nodes@;
                assert(ns[parent as int].rank > ns[id as int].rank);
                if ns[parent as int].id as int != parent as int {
                    assert(ns[gp as int].rank > ns[parent as int].rank);
                }
                assert(root_of(ns, gp as int) == root_of(ns, id as int)) by {
                    assert(root_of(ns, id as int) == root_of(ns, parent as int));
                    assert(root_of(ns, parent as int) == root_of(ns, gp as int));
                }
                lemma_repoint(ns, id as int, gp);
            }
            let ghost pre = nodes@;
            nodes.set(id, Node { id: gp, rank: rank_id });
            proof {
                assert(nodes@ == pre.update(id as int, Node { id: gp, rank: pre[id as int].rank }));
            }
            id = gp;
        }
        id
    }
}

impl FindMode for PathSplitting {
    fn find_node(nodes: &mut Vec<Node>, i: usize) -> (r: usize) {
        let ghost orig = nodes@;
        let mut id = i;
        loop
            invariant
                ds_nodes_wf(nodes@),
                nodes@.len() == orig.len(),
                id < orig.len(),
                forall|k: int|
                    0 <= k < orig.len() ==> (#[trigger] nodes@[k]).rank == orig[k].rank,
                forall|k: int|
                    0 <= k < orig.len() ==> ((#[trigger] nodes@[k]).id as int == k <==> orig[k].id
                        as int == k),
                forall|a: int| 0 <= a < orig.len() ==> root_of(nodes@, a) == root_of(orig, a),
                root_of(nodes@, id as int) == root_of(orig, i as int),
            ensures
                ds_nodes_wf(nodes@),
                nodes@.len() == orig.len(),
                forall|k: int|
                    0 <= k < orig.len() ==> (#[trigger] nodes@[k]).rank == orig[k].rank,
                forall|k: int|
                    0 <= k < orig.len() ==> ((#[trigger] nodes@[k]).id as int == k <==> orig[k].id
                        as int == k),
                forall|a: int| 0 <= a < orig.len() ==> root_of(nodes@, a) == root_of(orig, a),
                id == root_of(orig, i as int),
                id < orig.len(),
            decreases u64::MAX - nodes@[id as int].rank,
        {
            let parent = nodes[id].id;
            if parent == id {
                break;
            }
            proof {
                assert(nodes@[parent as int].rank > nodes@[id as int].rank);
            }
            // advance, then re-point the node we advanced to
            id = parent;
            let p2 = nodes[id].id;
            if p2 != id {
                let gp = nodes[p2].id;
                let rank_id = nodes[id].rank;
                proof {
                    let ns = nodes@;
                    assert(ns[p2 as int].rank > ns[id as int].rank);
                    if ns[p2 as int].id as int != p2 as int {
                        assert(ns[gp as int].rank > ns[p2 as int].rank);
                    }
                    assert(root_of(ns, gp as int) == root_of(ns, id as int)) by {
                        assert(root_of(ns, id as int) == root_of(ns, p2 as int));
                        assert(root_of(ns, p2 as int) == root_of(ns, gp as int));
                    }
                    lemma_repoint(ns, id as int, gp);
                }
                let ghost pre = nodes@;
                nodes.set(id, Node { id: gp, rank: rank_id });
                proof {
                    assert(nodes@ == pre.update(
                        id as int,
                        Node { id: gp, rank: pre[id as int].rank },
                    ));
                }
            }
        }
        id
    }
}

/// A plain disjoint set: `n` nodes, a component counter, and a
/// path-compaction policy chosen by the `F` marker type.
#[derive(PartialEq, Eq, Debug)]
pub struct SimpleDisjointSet<F: FindMode = PathCompression> {
    nodes: Vec<Node>,
    components: usize,
    _marker: PhantomData<F>,
}

impl<F: FindMode> DisjointSet for SimpleDisjointSet<F> {
    closed spec fn wf(&self) -> bool {
        ds_state_ok(self.nodes@, self.components as int)
    }

    closed spec fn spec_nodes(&self) -> Seq<Node> {
        self.nodes@
    }

    closed spec fn spec_components(&self) -> int {
        self.components as int
    }

    fn new(components: usize) -> (s: Self) {
        let mut nodes: Vec<Node> = Vec::new();
        let mut k: usize = 0;
        while k < components
            invariant
                k <= components,
                nodes@.len() == k,
                forall|i: int| 0 <= i < k ==> nodes@[i] == (Node { id: i as usize, rank: 1u64 }),
            decreases components - k,
        {
            nodes.push(Node { id: k, rank: 1 });
            k = k + 1;
        }
        proof {
            assert(nodes@ =~= init_nodes(components));
            lemma_init_state(components);
        }
        Self { nodes, components, _marker: PhantomData }
    }

    fn find(&mut self, id: usize) -> (r: usize) {
        let r = F::find_node(&mut self.nodes, id);
        proof {
            lemma_roots_same(old(self).nodes@, self.nodes@);
        }
        r
    }

    #[verifier::rlimit(100)]
    #[verifier::spinoff_prover]
    fn union(&mut self, i: usize, j: usize) {
        let ghost pre = self.nodes@;
        let ghost comps = self.components as int;
        let parent0 = F::find_node(&mut self.nodes, i);
        let ghost m1 = self.nodes@;
        let child0 = F::find_node(&mut self.nodes, j);
        let ghost mid = self.nodes@;
        proof {
            lemma_preserve_state(pre, m1, comps);
            lemma_preserve_state(m1, mid, comps);
            assert forall|a: int| 0 <= a < pre.len() implies root_of(mid, a) == root_of(
                pre,
                a,
            ) by {
                assert(root_of(mid, a) == root_of(m1, a));
            }
            lemma_root(pre, i as int);
            lemma_root(pre, j as int);
            assert(child0 == root_of(pre, j as int));
        }
        if parent0 == child0 {
            proof {
                lemma_union_noop_partition(pre, mid, i as int, j as int);
            }
            return ;
        }
        let (parent, child) = if self.nodes[parent0].rank < self.nodes[child0].rank {
            (child0, parent0)
        } else {
            (parent0, child0)
        };
        proof {
            assert(mid[parent as int].id as int == parent as int);
            assert(mid[child as int].id as int == child as int);
            lemma_two_roots_card(mid, comps, parent as int, child as int);
            assert(mid[parent as int].rank + comps <= mid.len() + 1);
            assert(mid.len() == vstd::std_specs::vec::spec_vec_len(&self.nodes));
            assert(mid.len() <= usize::MAX);
            assert(mid[parent as int].rank < u64::MAX);
        }
        let rank_c = self.nodes[child].rank;
        let rank_p = self.nodes[parent].rank;
        proof {
            lemma_link(mid, child as int, parent as int);
        }
        let pid = self.nodes[parent].id;
        self.nodes.set(child, Node { id: parent, rank: rank_c });
        self.nodes.set(parent, Node { id: pid, rank: rank_p + 1 });
        self.components = self.components - 1;
        proof {
            assert(self.nodes@ == mid.update(
                child as int,
                Node { id: parent, rank: mid[child as int].rank },
            ).update(
                parent as int,
                Node { id: mid[parent as int].id, rank: (mid[parent as int].rank + 1) as u64 },
            ));
            lemma_union_post(
                pre,
                mid,
                self.nodes@,
                comps,
                i as int,
                j as int,
                parent as int,
                child as int,
            );
        }
    }

    fn are_connected(&mut self, i: usize, j: usize) -> (r: bool) {
        let ri = self.find(i);
        let rj = self.find(j);
        ri == rj
    }

    fn components(&self) -> (r: usize) {
        self.components
    }

    fn size(&self) -> (r: usize) {
        self.nodes.len()
    }

    proof fn lemma_wf(&self) {
    }
}

/// One logged rewrite: which node changed, the node's prior state, and
/// whether the `components` counter was decremented by the same operation.
#[derive(Clone, Copy, PartialEq, Eq, Structural, Debug)]
pub struct Change {
    pub id: usize,
    pub old_state: Node,
    pub components_changed: bool,
}

impl Change {
    fn new(id: usize, old_state: Node) -> (c: Change)
        ensures
            c == (Change { id, old_state, components_changed: false }),
    {
        Change { id, old_state, components_changed: false }
    }

    fn changed(self) -> (c: Change)
        ensures
            c == (Change { components_changed: true, ..self }),
    {
        Change { components_changed: true, ..self }
    }
}

/// A history entry: either a logged rewrite or a checkpoint marker.
#[derive(Clone, Copy, PartialEq, Eq, Structural, Debug)]
pub enum Operation {
    Change(Change),
    SavePoint,
}

/// The two entries a merging union appends: the parent's prior state
/// (tagged as the component decrement), then the child's.
pub open spec fn union_log(nodes: Seq<Node>, i: int, j: int) -> Seq<Operation> {
    let p = union_parent(nodes, i, j);
    let c = union_child(nodes, i, j);
    seq![
        Operation::Change(
            Change { id: p as usize, old_state: nodes[p], components_changed: true },
        ),
        Operation::Change(Change { id: c as usize, old_state: nodes[c], components_changed: false }),
    ]
}

/// Two pushes are one two-entry concatenation: the shape of a merging
/// union's log suffix.
proof fn lemma_union_log_shape(pre: Seq<Node>, i: int, j: int, hist0: Seq<Operation>, p: int, c: int)
    requires
        p == union_parent(pre, i, j),
        c == union_child(pre, i, j),
        0 <= p < pre.len(),
        0 <= c < pre.len(),
    ensures
        hist0.push(
            Operation::Change(
                Change { id: p as usize, old_state: pre[p], components_changed: true },
            ),
        ).push(
            Operation::Change(
                Change { id: c as usize, old_state: pre[c], components_changed: false },
            ),
        ) == hist0 + union_log(pre, i, j),
{
    assert(hist0.push(
        Operation::Change(Change { id: p as usize, old_state: pre[p], components_changed: true }),
    ).push(
        Operation::Change(Change { id: c as usize, old_state: pre[c], components_changed: false }),
    ) =~= hist0 + union_log(pre, i, j));
}

/// The undo log: a flat stack of operations.
#[derive(PartialEq, Eq, Debug)]
struct History(Vec<Operation>);

impl History {
    fn push(&mut self, c: Change)
        ensures
            final(self).0@ == old(self).0@.push(Operation::Change(c)),
    {
        self.0.push(Operation::Change(c))
    }

    fn save_point(&mut self)
        ensures
            final(self).0@ == old(self).0@.push(Operation::SavePoint),
    {
        self.0.push(Operation::SavePoint);
    }

    fn pop(&mut self) -> (r: Option<Operation>)
        ensures
            old(self).0@.len() == 0 ==> r is None && final(self).0@ == old(self).0@,
            old(self).0@.len() > 0 ==> r == Some(old(self).0@.last()) && final(self).0@ == old(
                self,
            ).0@.drop_last(),
    {
        self.0.pop()
    }
}

/// Undo one history entry: restore the changed node's prior state and give
/// back the component that the entry's operation had merged away.
pub open spec fn apply_undo(nodes: Seq<Node>, comps: int, op: Operation) -> (Seq<Node>, int) {
    match op {
        Operation::SavePoint => (nodes, comps),
        Operation::Change(c) => (
            if c.id < nodes.len() {
                nodes.update(c.id as int, c.old_state)
            } else {
                nodes
            },
            comps + (if c.components_changed {
                1int
            } else {
                0int
            }),
        ),
    }
}

/// The state reached by popping history entries (applying each change)
/// until the history has length `k`.
pub open spec fn rewind_to(nodes: Seq<Node>, comps: int, hist: Seq<Operation>, k: int) -> (
    Seq<Node>,
    int,
)
    decreases hist.len() - k,
        when 0 <= k
{
    if hist.len() <= k {
        (nodes, comps)
    } else {
        let s = apply_undo(nodes, comps, hist.last());
        rewind_to(s.0, s.1, hist.drop_last(), k)
    }
}

/// Restoring never changes the number of nodes.
pub proof fn lemma_restore_spec_len(nodes: Seq<Node>, comps: int, hist: Seq<Operation>)
    ensures
        restore_spec(nodes, comps, hist).0.len() == nodes.len(),
    decreases hist.len(),
{
    if hist.len() > 0 {
        match hist.last() {
            Operation::SavePoint => {
            },
            Operation::Change(c) => {
                let s = apply_undo(nodes, comps, hist.last());
                lemma_restore_spec_len(s.0, s.1, hist.drop_last());
            },
        }
    }
}

/// What `restore_state` computes: pop entries, applying each change, until
/// (and including) the most recent save point.
pub open spec fn restore_spec(nodes: Seq<Node>, comps: int, hist: Seq<Operation>) -> (
    Seq<Node>,
    int,
    Seq<Operation>,
)
    decreases hist.len(),
{
    if hist.len() == 0 {
        (nodes, comps, hist)
    } else {
        match hist.last() {
            Operation::SavePoint => (nodes, comps, hist.drop_last()),
            Operation::Change(c) => {
                let s = apply_undo(nodes, comps, hist.last());
                restore_spec(s.0, s.1, hist.drop_last())
            },
        }
    }
}

/// The history invariant: every state the log can rewind to is a
/// well-formed forest with an in-range component counter; the state under
/// each save point, and the state at the very bottom, satisfy the full
/// invariant.
pub open spec fn hist_ok(nodes: Seq<Node>, comps: int, hist: Seq<Operation>) -> bool
    decreases hist.len(),
{
    &&& ds_nodes_wf(nodes)
    &&& 0 <= comps <= nodes.len()
    &&& if hist.len() == 0 {
        ds_state_ok(nodes, comps)
    } else {
        match hist.last() {
            Operation::SavePoint => ds_state_ok(nodes, comps) && hist_ok(
                nodes,
                comps,
                hist.drop_last(),
            ),
            Operation::Change(c) => {
                let s = apply_undo(nodes, comps, hist.last());
                c.id < nodes.len() && hist_ok(s.0, s.1, hist.drop_last())
            },
        }
    }
}

/// The initial forest is well-formed: every node is a root.
proof fn lemma_init_state(n: usize)
    ensures
        ds_state_ok(init_nodes(n), n as int),
{
    let nodes = init_nodes(n);
    assert(roots_set(nodes) =~= set_int_range(0, n as int));
    lemma_int_range(0, n as int);
}

/// Two forests with pointwise-equal rootness and ranks have the same roots
/// set; with equal lengths the state invariant carries over from one to the
/// other.
proof fn lemma_roots_same(pre: Seq<Node>, post: Seq<Node>)
    requires
        post.len() == pre.len(),
        forall|k: int| 0 <= k < pre.len() ==> (#[trigger] post[k]).rank == pre[k].rank,
        forall|k: int|
            0 <= k < pre.len() ==> ((#[trigger] post[k]).id as int == k <==> pre[k].id as int == k),
    ensures
        roots_set(post) == roots_set(pre),
{
    assert(roots_set(post) =~= roots_set(pre));
}

/// Copy a node vector element by element.
fn copy_nodes(nodes: &Vec<Node>) -> (r: Vec<Node>)
    ensures
        r@ == nodes@,
{
    let mut r: Vec<Node> = Vec::new();
    let n = nodes.len();
    let mut k: usize = 0;
    while k < n
        invariant
            k <= n,
            n == nodes@.len(),
            r@ == nodes@.subrange(0, k as int),
        decreases n - k,
    {
        r.push(nodes[k]);
        proof {
            assert(r@ =~= nodes@.subrange(0, k + 1));
        }
        k = k + 1;
    }
    proof {
        assert(r@ =~= nodes@);
    }
    r
}

impl<F: FindMode> Clone for SimpleDisjointSet<F> {
    /// A deep copy with the same forest and component count.
    fn clone(&self) -> (res: Self)
        ensures
            res.spec_nodes() == self.spec_nodes(),
            res.spec_components() == self.spec_components(),
            self.wf() ==> res.wf(),
    {
        Self {
            nodes: copy_nodes(&self.nodes),
            components: self.components,
            _marker: PhantomData,
        }
    }
}

/// Follow parent pointers to the root without rewriting anything.
fn root_lookup(nodes: &Vec<Node>, i: usize) -> (r: usize)
    requires
        ds_nodes_wf(nodes@),
        i < nodes@.len(),
    ensures
        r == root_of(nodes@, i as int),
        r < nodes@.len(),
        nodes@[r as int].id == r,
{
    let mut id = i;
    while nodes[id].id != id
        invariant
            ds_nodes_wf(nodes@),
            id < nodes@.len(),
            i < nodes@.len(),
            root_of(nodes@, id as int) == root_of(nodes@, i as int),
        decreases u64::MAX - nodes@[id as int].rank,
    {
        id = nodes[id].id;
    }
    id
}

/// Union-find with an undo log: `save_state` pushes a checkpoint and
/// `restore_state` reverts every logged rewrite back to (and including)
/// the most recent checkpoint. Checkpoints nest like a stack.
///
/// `find` here never rewrites parent pointers, so nothing it does can
/// escape a later `restore_state`.
#[derive(PartialEq, Eq, Debug)]
pub struct UndoDisjointSet<F: FindMode = PathCompression> {
    set: SimpleDisjointSet<F>,
    history: History,
}

impl<F: FindMode> UndoDisjointSet<F> {
    /// The recorded history, oldest first.
    pub closed spec fn spec_history(&self) -> Seq<Operation> {
        self.history.0@
    }

    /// A fresh structure of `components` singletons with an empty history:
    /// a `restore_state` with no prior checkpoint reverts nothing.
    pub fn new(components: usize) -> (s: Self)
        ensures
            s.wf(),
            s.spec_nodes() == init_nodes(components),
            s.spec_components() == components,
            s.spec_history() == Seq::<Operation>::empty(),
    {
        let set: SimpleDisjointSet<F> = DisjointSet::new(components);
        let s = Self { set, history: History(Vec::new()) };
        proof {
            assert(s.spec_history() =~= Seq::<Operation>::empty());
        }
        s
    }

    /// Push a checkpoint marker onto the history.
    pub fn save_state(&mut self)
        requires
            old(self).wf(),
        ensures
            final(self).wf(),
            final(self).spec_nodes() == old(self).spec_nodes(),
            final(self).spec_components() == old(self).spec_components(),
            final(self).spec_history() == old(self).spec_history().push(Operation::SavePoint),
            forall|k: int|
                0 <= k <= old(self).spec_history().len() ==> #[trigger] rewind_to(
                    final(self).spec_nodes(),
                    final(self).spec_components(),
                    final(self).spec_history(),
                    k,
                ) == rewind_to(
                    old(self).spec_nodes(),
                    old(self).spec_components(),
                    old(self).spec_history(),
                    k,
                ),
    {
        self.history.save_point();
        proof {
            let nodes = self.set.nodes@;
            let comps = self.set.components as int;
            let h2 = self.history.0@;
            assert(h2.last() == Operation::SavePoint);
            assert(h2.drop_last() =~= old(self).history.0@);
            assert forall|k: int| 0 <= k <= old(self).spec_history().len() implies #[trigger]
            rewind_to(nodes, comps, h2, k) == rewind_to(
                nodes,
                comps,
                old(self).spec_history(),
                k,
            ) by {
                if k <= old(self).spec_history().len() {
                    assert(rewind_to(nodes, comps, h2, k) == rewind_to(
                        nodes,
                        comps,
                        h2.drop_last(),
                        k,
                    ));
                }
            }
        }
    }

    /// Pop history entries, reverting each logged rewrite, until (and
    /// including) the most recent save point.
    pub fn restore_state(&mut self)
        requires
            old(self).wf(),
        ensures
            final(self).wf(),
            final(self).spec_nodes() == restore_spec(
                old(self).spec_nodes(),
                old(self).spec_components(),
                old(self).spec_history(),
            ).0,
            final(self).spec_components() == restore_spec(
                old(self).spec_nodes(),
                old(self).spec_components(),
                old(self).spec_history(),
            ).1,
            final(self).spec_history() == restore_spec(
                old(self).spec_nodes(),
                old(self).spec_components(),
                old(self).spec_history(),
            ).2,
            final(self).spec_nodes().len() == old(self).spec_nodes().len(),
    {
        let ghost target = restore_spec(
            old(self).spec_nodes(),
            old(self).spec_components(),
            old(self).spec_history(),
        );
        proof {
            lemma_restore_spec_len(
                old(self).spec_nodes(),
                old(self).spec_components(),
                old(self).spec_history(),
            );
        }
        loop
            invariant_except_break
                hist_ok(self.set.nodes@, self.set.components as int, self.history.0@),
                restore_spec(
                    self.set.nodes@,
                    self.set.components as int,
                    self.history.0@,
                ) == target,
            ensures
                ds_state_ok(self.set.nodes@, self.set.components as int),
                hist_ok(self.set.nodes@, self.set.components as int, self.history.0@),
                self.set.nodes@ == target.0,
                self.set.components as int == target.1,
                self.history.0@ == target.2,
            decreases self.history.0@.len(),
        {
            let ghost pre_nodes = self.set.nodes@;
            let ghost pre_comps = self.set.components as int;
            let ghost pre_hist = self.history.0@;
            match self.history.pop() {
                None => {
                    proof {
                        assert(pre_hist.len() == 0);
                        assert(restore_spec(pre_nodes, pre_comps, pre_hist) == (
                        pre_nodes,
                        pre_comps,
                        pre_hist,
                        ));
                    }
                    break ;
                },
                Some(Operation::SavePoint) => {
                    proof {
                        assert(pre_hist.last() == Operation::SavePoint);
                        assert(restore_spec(pre_nodes, pre_comps, pre_hist) == (
                        pre_nodes,
                        pre_comps,
                        pre_hist.drop_last(),
                        ));
                    }
                    break ;
                },
                Some(Operation::Change(c)) => {
                    proof {
                        assert(pre_hist.last() == Operation::Change(c));
                        assert(c.id < pre_nodes.len());
                        let s = apply_undo(pre_nodes, pre_comps, Operation::Change(c));
                        assert(hist_ok(s.0, s.1, pre_hist.drop_last()));
                        assert(pre_nodes.len() == vstd::std_specs::vec::spec_vec_len(
                            &self.set.nodes,
                        ));
                        assert(s.1 <= pre_nodes.len() <= usize::MAX);
                    }
                    self.set.nodes.set(c.id, c.old_state);
                    if c.components_changed {
                        self.set.components = self.set.components + 1;
                    }
                    proof {
                        let s = apply_undo(pre_nodes, pre_comps, Operation::Change(c));
                        assert(self.set.nodes@ == s.0);
                        assert(self.set.components as int == s.1);
                    }
                },
            }
        }
    }

    /// The representative of `id`'s set. Never rewrites parent pointers,
    /// so the structure is left exactly as it was.
    pub fn find(&mut self, id: usize) -> (r: usize)
        requires
            old(self).wf(),
            id < old(self).spec_nodes().len(),
        ensures
            final(self).wf(),
            final(self).spec_nodes() == old(self).spec_nodes(),
            final(self).spec_components() == old(self).spec_components(),
            final(self).spec_history() == old(self).spec_history(),
            r == root_of(old(self).spec_nodes(), id as int),
            r < old(self).spec_nodes().len(),
    {
        root_lookup(&self.set.nodes, id)
    }

    /// Whether `i` and `j` are in the same set. Leaves the structure
    /// exactly as it was.
    pub fn are_connected(&mut self, i: usize, j: usize) -> (r: bool)
        requires
            old(self).wf(),
            i < old(self).spec_nodes().len(),
            j < old(self).spec_nodes().len(),
        ensures
            final(self).wf(),
            final(self).spec_nodes() == old(self).spec_nodes(),
            final(self).spec_components() == old(self).spec_components(),
            final(self).spec_history() == old(self).spec_history(),
            r == same_set(old(self).spec_nodes(), i as int, j as int),
    {
        let ri = root_lookup(&self.set.nodes, i);
        let rj = root_lookup(&self.set.nodes, j);
        ri == rj
    }

    /// Merge the sets of `i` and `j`, logging the two node rewrites so
    /// that `restore_state` can revert them. A union of two already-joined
    /// nodes changes nothing and logs nothing.
    #[verifier::rlimit(100)]
    #[verifier::spinoff_prover]
    pub fn union(&mut self, i: usize, j: usize)
        requires
            old(self).wf(),
            i < old(self).spec_nodes().len(),
            j < old(self).spec_nodes().len(),
        ensures
            final(self).wf(),
            final(self).spec_nodes().len() == old(self).spec_nodes().len(),
            forall|a: int, b: int|
                0 <= a < old(self).spec_nodes().len() && 0 <= b < old(self).spec_nodes().len()
                    ==> (#[trigger] same_set(final(self).spec_nodes(), a, b) <==> (same_set(
                    old(self).spec_nodes(),
                    a,
                    b,
                ) || (same_set(old(self).spec_nodes(), a, i as int) && same_set(
                    old(self).spec_nodes(),
                    b,
                    j as int,
                )) || (same_set(old(self).spec_nodes(), a, j as int) && same_set(
                    old(self).spec_nodes(),
                    b,
                    i as int,
                )))),
            final(self).spec_components() == (if same_set(
                old(self).spec_nodes(),
                i as int,
                j as int,
            ) {
                old(self).spec_components()
            } else {
                old(self).spec_components() - 1
            }),
            same_set(old(self).spec_nodes(), i as int, j as int) ==> (final(self).spec_nodes()
                == old(self).spec_nodes() && final(self).spec_components() == old(
                self,
            ).spec_components() && final(self).spec_history() == old(self).spec_history()),
            !same_set(old(self).spec_nodes(), i as int, j as int) ==> final(self).spec_nodes()
                == linked_nodes(old(self).spec_nodes(), i as int, j as int),
            !same_set(old(self).spec_nodes(), i as int, j as int) ==> final(self).spec_history()
                == old(self).spec_history() + union_log(old(self).spec_nodes(), i as int, j as int),
            old(self).spec_history().is_prefix_of(final(self).spec_history()),
            forall|k: int|
                old(self).spec_history().len() <= k < final(self).spec_history().len()
                    ==> (#[trigger] final(self).spec_history()[k]) is Change,
            forall|k: int|
                0 <= k <= old(self).spec_history().len() ==> #[trigger] rewind_to(
                    final(self).spec_nodes(),
                    final(self).spec_components(),
                    final(self).spec_history(),
                    k,
                ) == rewind_to(
                    old(self).spec_nodes(),
                    old(self).spec_components(),
                    old(self).spec_history(),
                    k,
                ),
    {
        let ghost pre = self.set.nodes@;
        let parent0 = root_lookup(&self.set.nodes, i);
        let child0 = root_lookup(&self.set.nodes, j);
        proof {
            lemma_root(pre, i as int);
            lemma_root(pre, j as int);
        }
        if parent0 == child0 {
            proof {
                lemma_union_noop_partition(pre, pre, i as int, j as int);
            }
            return ;
        }
        let (parent, child) = if self.set.nodes[parent0].rank < self.set.nodes[child0].rank {
            (child0, parent0)
        } else {
            (parent0, child0)
        };
        self.union_link(i, j, parent, child);
    }

    /// The merging half of `union`: log the two rewrites, link the child
    /// root under the parent root, and decrement the component counter.
    #[verifier::rlimit(100)]
    #[verifier::spinoff_prover]
    fn union_link(&mut self, i: usize, j: usize, parent: usize, child: usize)
        requires
            old(self).wf(),
            i < old(self).spec_nodes().len(),
            j < old(self).spec_nodes().len(),
            parent as int == union_parent(old(self).spec_nodes(), i as int, j as int),
            child as int == union_child(old(self).spec_nodes(), i as int, j as int),
            parent != child,
        ensures
            final(self).wf(),
            final(self).spec_nodes().len() == old(self).spec_nodes().len(),
            forall|a: int, b: int|
                0 <= a < old(self).spec_nodes().len() && 0 <= b < old(self).spec_nodes().len()
                    ==> (#[trigger] same_set(final(self).spec_nodes(), a, b) <==> (same_set(
                    old(self).spec_nodes(),
                    a,
                    b,
                ) || (same_set(old(self).spec_nodes(), a, i as int) && same_set(
                    old(self).spec_nodes(),
                    b,
                    j as int,
                )) || (same_set(old(self).spec_nodes(), a, j as int) && same_set(
                    old(self).spec_nodes(),
                    b,
                    i as int,
                )))),
            final(self).spec_components() == old(self).spec_components() - 1,
            final(self).spec_nodes() == linked_nodes(old(self).spec_nodes(), i as int, j as int),
            final(self).spec_history() == old(self).spec_history() + union_log(
                old(self).spec_nodes(),
                i as int,
                j as int,
            ),
            old(self).spec_history().is_prefix_of(final(self).spec_history()),
            forall|k: int|
                old(self).spec_history().len() <= k < final(self).spec_history().len()
                    ==> (#[trigger] final(self).spec_history()[k]) is Change,
            forall|k: int|
                0 <= k <= old(self).spec_history().len() ==> #[trigger] rewind_to(
                    final(self).spec_nodes(),
                    final(self).spec_components(),
                    final(self).spec_history(),
                    k,
                ) == rewind_to(
                    old(self).spec_nodes(),
                    old(self).spec_components(),
                    old(self).spec_history(),
                    k,
                ),
            !same_set(old(self).spec_nodes(), i as int, j as int),
    {
        let ghost pre = self.set.nodes@;
        let ghost comps = self.set.components as int;
        let ghost hist0 = self.history.0@;
        proof {
            lemma_root(pre, i as int);
            lemma_root(pre, j as int);
            assert(pre[parent as int].id as int == parent as int);
            assert(pre[child as int].id as int == child as int);
            lemma_two_roots_card(pre, comps, parent as int, child as int);
            assert(pre[parent as int].rank + comps <= pre.len() + 1);
            assert(pre.len() == vstd::std_specs::vec::spec_vec_len(&self.set.nodes));
            assert(pre.len() <= usize::MAX);
            assert(pre[parent as int].rank < u64::MAX);
        }
        let parent_node = self.set.nodes[parent];
        let child_node = self.set.nodes[child];
        self.history.push(Change::new(parent, parent_node).changed());
        self.history.push(Change::new(child, child_node));
        proof {
            lemma_link(pre, child as int, parent as int);
        }
        self.set.nodes.set(child, Node { id: parent, rank: child_node.rank });
        self.set.nodes.set(parent, Node { id: parent_node.id, rank: parent_node.rank + 1 });
        self.set.components = self.set.components - 1;
        proof {
            let post = self.set.nodes@;
            let hist2 = self.history.0@;
            let e1 = Operation::Change(
                Change { id: parent, old_state: pre[parent as int], components_changed: true },
            );
            let e2 = Operation::Change(
                Change { id: child, old_state: pre[child as int], components_changed: false },
            );
            assert(hist2 =~= hist0.push(e1).push(e2));
            assert(post == pre.update(
                child as int,
                Node { id: parent, rank: pre[child as int].rank },
            ).update(
                parent as int,
                Node { id: pre[parent as int].id, rank: (pre[parent as int].rank + 1) as u64 },
            ));
            lemma_union_post(
                pre,
                pre,
                post,
                comps,
                i as int,
                j as int,
                parent as int,
                child as int,
            );
            lemma_undo_pair(pre, comps, hist0, parent as int, child as int);
            assert(old(self).spec_history().is_prefix_of(hist2)) by {
                assert(hist2.take(hist0.len() as int) =~= hist0);
            }
            assert(post == linked_nodes(pre, i as int, j as int));
            lemma_union_log_shape(
                pre,
                i as int,
                j as int,
                hist0,
                parent as int,
                child as int,
            );
        }
    }
}

impl<F: FindMode> Clone for UndoDisjointSet<F> {
    /// A deep copy with the same forest, component count and history.
    fn clone(&self) -> (res: Self)
        ensures
            res.spec_nodes() == self.spec_nodes(),
            res.spec_components() == self.spec_components(),
            res.spec_history() == self.spec_history(),
            self.wf() ==> res.wf(),
    {
        let mut ops: Vec<Operation> = Vec::new();
        let n = self.history.0.len();
        let mut k: usize = 0;
        while k < n
            invariant
                k <= n,
                n == self.history.0@.len(),
                ops@ == self.history.0@.subrange(0, k as int),
            decreases n - k,
        {
            ops.push(self.history.0[k]);
            proof {
                assert(ops@ =~= self.history.0@.subrange(0, k + 1));
            }
            k = k + 1;
        }
        proof {
            assert(ops@ =~= self.history.0@);
        }
        Self { set: self.set.clone(), history: History(ops) }
    }
}

/// After a union's two logged rewrites, popping them restores exactly the
/// pre-union state: the history invariant carries over, and rewinding to
/// any point of the old history is unchanged.
#[verifier::rlimit(50)]
proof fn lemma_undo_pair(pre: Seq<Node>, comps: int, hist: Seq<Operation>, p: int, c: int)
    requires
        ds_state_ok(pre, comps),
        hist_ok(pre, comps, hist),
        0 <= p < pre.len(),
        0 <= c < pre.len(),
        p != c,
        pre[p].id as int == p,
        pre[c].id as int == c,
        pre[p].rank < u64::MAX,
        comps >= 2,
        ds_state_ok(
            pre.update(c, Node { id: p as usize, rank: pre[c].rank }).update(
                p,
                Node { id: pre[p].id, rank: (pre[p].rank + 1) as u64 },
            ),
            comps - 1,
        ),
    ensures
        ({
            let post = pre.update(c, Node { id: p as usize, rank: pre[c].rank }).update(
                p,
                Node { id: pre[p].id, rank: (pre[p].rank + 1) as u64 },
            );
            let e1 = Operation::Change(
                Change { id: p as usize, old_state: pre[p], components_changed: true },
            );
            let e2 = Operation::Change(
                Change { id: c as usize, old_state: pre[c], components_changed: false },
            );
            let hist2 = hist.push(e1).push(e2);
            &&& hist_ok(post, comps - 1, hist2)
            &&& forall|k: int|
                0 <= k <= hist.len() ==> #[trigger] rewind_to(post, comps - 1, hist2, k)
                    == rewind_to(pre, comps, hist, k)
        }),
{
    let post = pre.update(c, Node { id: p as usize, rank: pre[c].rank }).update(
        p,
        Node { id: pre[p].id, rank: (pre[p].rank + 1) as u64 },
    );
    let e1 = Operation::Change(
        Change { id: p as usize, old_state: pre[p], components_changed: true },
    );
    let e2 = Operation::Change(
        Change { id: c as usize, old_state: pre[c], components_changed: false },
    );
    let hist2 = hist.push(e1).push(e2);
    // popping e2 restores the child's node; popping e1 restores the parent
    // and the component count
    let s1 = apply_undo(post, comps - 1, e2);
    let mid = pre.update(p, Node { id: pre[p].id, rank: (pre[p].rank + 1) as u64 });
    assert(s1.0 =~= mid);
    let s2 = apply_undo(s1.0, s1.1, e1);
    assert(s2.0 =~= pre);
    assert(s2.1 == comps);
    // raising a root's rank keeps the forest well-formed
    assert(ds_nodes_wf(mid)) by {
        assert forall|ii: int| 0 <= ii < mid.len() implies {
            &&& (#[trigger] mid[ii]).id < mid.len()
            &&& (mid[ii].id as int != ii ==> mid[ii].rank < mid[mid[ii].id as int].rank)
        } by {
            assert(pre[ii].id < pre.len());
        }
    }
    assert(hist2.last() == e2);
    assert(hist2.drop_last() =~= hist.push(e1));
    assert(hist.push(e1).last() == e1);
    assert(hist.push(e1).drop_last() =~= hist);
    assert(hist_ok(post, comps - 1, hist2)) by {
        assert(hist_ok(s2.0, s2.1, hist));
        assert(hist_ok(s1.0, s1.1, hist.push(e1)));
    }
    assert forall|k: int| 0 <= k <= hist.len() implies #[trigger] rewind_to(
        post,
        comps - 1,
        hist2,
        k,
    ) == rewind_to(pre, comps, hist, k) by {
        assert(rewind_to(post, comps - 1, hist2, k) == rewind_to(s1.0, s1.1, hist.push(e1), k));
        assert(rewind_to(s1.0, s1.1, hist.push(e1), k) == rewind_to(s2.0, s2.1, hist, k));
    }
}

/// Law: a run of `union` and `find` operations wrapped between
/// `save_state` and `restore_state` leaves the undoable disjoint-set
/// exactly as it was at the save.
///
/// State 1 is the structure when `save_state` pushed its checkpoint;
/// state 2 is the structure when `restore_state` runs. The hypotheses are
/// precisely what the operations in between ensure: they only append
/// `Change` entries above the checkpoint (`find` appends nothing), and
/// rewinding past their own entries reproduces the states they started
/// from. The conclusion is that `restore_state` computes state 1, history
/// included.
pub proof fn lemma_restore_reverts(
    nodes1: Seq<Node>,
    comps1: int,
    hist1: Seq<Operation>,
    nodes2: Seq<Node>,
    comps2: int,
    hist2: Seq<Operation>,
)
    requires
        hist2.len() > hist1.len(),
        hist2.take(hist1.len() as int + 1) == hist1.push(Operation::SavePoint),
        forall|k: int| hist1.len() < k < hist2.len() ==> (#[trigger] hist2[k]) is Change,
        rewind_to(nodes2, comps2, hist2, hist1.len() as int + 1) == (nodes1, comps1),
    ensures
        restore_spec(nodes2, comps2, hist2) == (nodes1, comps1, hist1),
    decreases hist2.len(),
{
    if hist2.len() == hist1.len() as int + 1 {
        // the top of the history is the checkpoint itself
        assert(hist2 =~= hist1.push(Operation::SavePoint)) by {
            assert(hist2.take(hist1.len() as int + 1) =~= hist2);
        }
        assert(hist2.last() == Operation::SavePoint);
        assert(hist2.drop_last() =~= hist1);
    } else {
        // the top entry is a logged rewrite; undo it and recurse
        assert(hist2.last() == hist2[hist2.len() - 1]);
        assert(hist2[hist2.len() - 1] is Change);
        let s = apply_undo(nodes2, comps2, hist2.last());
        let h = hist2.drop_last();
        assert(h.take(hist1.len() as int + 1) =~= hist1.push(Operation::SavePoint)) by {
            assert forall|k: int| 0 <= k < hist1.len() as int + 1 implies h.take(hist1.len() as int + 1)[k]
                == hist1.push(Operation::SavePoint)[k] by {
                assert(hist2.take(hist1.len() as int + 1)[k] == hist2[k]);
            }
        }
        assert(rewind_to(nodes2, comps2, hist2, hist1.len() as int + 1) == rewind_to(
            s.0,
            s.1,
            h,
            hist1.len() as int + 1,
        ));
        lemma_restore_reverts(nodes1, comps1, hist1, s.0, s.1, h);
        match hist2.last() {
            Operation::Change(c) => {
                assert(restore_spec(nodes2, comps2, hist2) == restore_spec(s.0, s.1, h));
            },
            Operation::SavePoint => {
                assert(false);
            },
        }
    }
}

impl<F: FindMode> DisjointSet for UndoDisjointSet<F> {
    closed spec fn wf(&self) -> bool {
        &&& ds_state_ok(self.set.nodes@, self.set.components as int)
        &&& hist_ok(self.set.nodes@, self.set.components as int, self.history.0@)
    }

    closed spec fn spec_nodes(&self) -> Seq<Node> {
        self.set.nodes@
    }

    closed spec fn spec_components(&self) -> int {
        self.set.components as int
    }

    fn new(components: usize) -> (s: Self) {
        UndoDisjointSet::new(components)
    }

    fn find(&mut self, id: usize) -> (r: usize) {
        UndoDisjointSet::find(self, id)
    }

    fn union(&mut self, i: usize, j: usize) {
        UndoDisjointSet::union(self, i, j)
    }

    fn are_connected(&mut self, i: usize, j: usize) -> (r: bool) {
        UndoDisjointSet::are_connected(self, i, j)
    }

    fn components(&self) -> (r: usize) {
        self.set.components
    }

    fn size(&self) -> (r: usize) {
        self.set.nodes.len()
    }

    proof fn lemma_wf(&self) {
    }
}

/// A `find` preserves the full state invariant: it changes no rank and no
/// node's rootness.
proof fn lemma_preserve_state(pre: Seq<Node>, post: Seq<Node>, components: int)
    requires
        ds_state_ok(pre, components),
        ds_nodes_wf(post),
        post.len() == pre.len(),
        forall|k: int| 0 <= k < pre.len() ==> (#[trigger] post[k]).rank == pre[k].rank,
        forall|k: int|
            0 <= k < pre.len() ==> ((#[trigger] post[k]).id as int == k <==> pre[k].id as int == k),
    ensures
        ds_state_ok(post, components),
{
    lemma_roots_same(pre, post);
}

/// A no-op union (both nodes already share a root) leaves the partition
/// biconditional trivially satisfied.
proof fn lemma_union_noop_partition(pre: Seq<Node>, post: Seq<Node>, i: int, j: int)
    requires
        ds_nodes_wf(pre),
        ds_nodes_wf(post),
        post.len() == pre.len(),
        0 <= i < pre.len(),
        0 <= j < pre.len(),
        same_set(pre, i, j),
        forall|a: int| 0 <= a < pre.len() ==> root_of(post, a) == root_of(pre, a),
    ensures
        forall|a: int, b: int|
            0 <= a < pre.len() && 0 <= b < pre.len() ==> (#[trigger] same_set(post, a, b) <==> (
            same_set(pre, a, b) || (same_set(pre, a, i) && same_set(pre, b, j)) || (same_set(
                pre,
                a,
                j,
            ) && same_set(pre, b, i)))),
{
}

/// Two distinct roots witness that the forest has at least two components.
proof fn lemma_two_roots_card(nodes: Seq<Node>, components: int, p: int, c: int)
    requires
        ds_state_ok(nodes, components),
        0 <= p < nodes.len(),
        0 <= c < nodes.len(),
        p != c,
        nodes[p].id as int == p,
        nodes[c].id as int == c,
    ensures
        components >= 2,
{
    let s = roots_set(nodes);
    assert(s.contains(p));
    assert(s.contains(c));
    assert(s.remove(c).contains(p));
    assert(s.remove(c).remove(p).len() >= 0);
}

/// After linking root `c` under root `p`, the partition is the old one with
/// the sets of `i` and `j` merged, the roots set loses exactly `c`, and the
/// state invariant holds at `components - 1`.
#[verifier::rlimit(30)]
proof fn lemma_union_post(
    pre: Seq<Node>,
    mid: Seq<Node>,
    post: Seq<Node>,
    components: int,
    i: int,
    j: int,
    p: int,
    c: int,
)
    requires
        ds_state_ok(mid, components),
        pre.len() == mid.len(),
        post.len() == mid.len(),
        0 <= i < mid.len(),
        0 <= j < mid.len(),
        0 <= p < mid.len(),
        0 <= c < mid.len(),
        p != c,
        mid[p].id as int == p,
        mid[c].id as int == c,
        ds_nodes_wf(pre),
        forall|a: int| 0 <= a < mid.len() ==> root_of(mid, a) == root_of(pre, a),
        (root_of(pre, i) == p && root_of(pre, j) == c) || (root_of(pre, i) == c && root_of(pre, j)
            == p),
        ds_nodes_wf(post),
        forall|a: int|
            0 <= a < mid.len() && root_of(mid, a) as int == c ==> root_of(post, a) == p,
        forall|a: int|
            0 <= a < mid.len() && root_of(mid, a) as int != c ==> root_of(post, a) == root_of(
                mid,
                a,
            ),
        post[p].rank == mid[p].rank + 1,
        forall|k: int|
            0 <= k < mid.len() && k != p ==> (#[trigger] post[k]).rank == mid[k].rank,
        post[c].id == p,
        forall|k: int| 0 <= k < mid.len() && k != c ==> (#[trigger] post[k]).id == mid[k].id,
        mid[p].rank + components <= mid.len() + 1,
        components >= 2,
    ensures
        ds_state_ok(post, components - 1),
        forall|a: int, b: int|
            0 <= a < pre.len() && 0 <= b < pre.len() ==> (#[trigger] same_set(post, a, b) <==> (
            same_set(pre, a, b) || (same_set(pre, a, i) && same_set(pre, b, j)) || (same_set(
                pre,
                a,
                j,
            ) && same_set(pre, b, i)))),
{
    // the roots set loses exactly c
    assert(roots_set(post) =~= roots_set(mid).remove(c));
    assert(roots_set(mid).contains(c));
    assert(roots_set(post).len() == components - 1);
    // partition characterization
    assert forall|a: int, b: int|
        0 <= a < pre.len() && 0 <= b < pre.len() implies (#[trigger] same_set(post, a, b) <==> (
    same_set(pre, a, b) || (same_set(pre, a, i) && same_set(pre, b, j)) || (same_set(pre, a, j)
        && same_set(pre, b, i)))) by {
        lemma_root(pre, a);
        lemma_root(pre, b);
    }
}

} // verus!
