//! An ordered, mutable n-ary tree (or forest) held in an index-based arena.
//!
//! Every node lives in one flat table owned by an [`Arena`]; a [`NodeId`] is a
//! stable handle into that table. Each node carries five structural links:
//! parent, first/last child, and previous/next sibling, forming a doubly
//! linked sibling chain under each parent.
//!
//! The abstract model of an arena is, for every slot `p`, the ordered
//! sequence `child_seq(p)` of its children, together with each slot's
//! optional parent. Well-formedness ([`Arena::wf`]) states that the concrete
//! links agree with that model:
//! * sibling chains are consistent doubly linked lists,
//! * `first_child`/`last_child` are the endpoints of the child sequence,
//! * a node with a parent appears exactly once in that parent's sequence,
//! * a node without a parent has no siblings.
//!
//! Structural edits (detach, append, prepend, insert before/after) are O(1)
//! link surgery; each one's contract pins the new model exactly and
//! re-establishes `wf`. Cycle-creating misuse (making a node an ancestor of
//! itself) is not checked, matching the documented caller responsibility;
//! traversals therefore ask for a finiteness witness (`finite_at`).

use vstd::prelude::*;
use vstd::std_specs::cmp::PartialEqSpec;

verus! {

/// A stable identity naming one slot of an [`Arena`], independent of the
/// node's current structural position.
#[derive(Debug, Clone, Copy, PartialEq, Eq, Structural)]
pub struct NodeId {
    index: usize,
}

impl NodeId {
    /// The slot number behind this identity.
    pub closed spec fn idx(self) -> int {
        self.index as int
    }
}

/// Spec view of an optional link as an optional slot number.
pub closed spec fn link(o: Option<NodeId>) -> Option<int> {
    match o {
        Some(id) => Some(id.idx()),
        None => None,
    }
}

/// The slot numbers behind a sequence of identities.
pub open spec fn ids_of(s: Seq<NodeId>) -> Seq<int> {
    s.map_values(|id: NodeId| id.idx())
}

/// Pointwise reading of `ids_of`.
pub broadcast proof fn lemma_ids_of(s: Seq<NodeId>)
    ensures
        (#[trigger] ids_of(s)).len() == s.len(),
        forall|i: int| 0 <= i < s.len() ==> ids_of(s)[i] == s[i].idx(),
{
}

/// One node record: a payload plus five structural links.
pub struct Node<T> {
    parent: Option<NodeId>,
    next_sibling: Option<NodeId>,
    previous_sibling: Option<NodeId>,
    first_child: Option<NodeId>,
    last_child: Option<NodeId>,
    /// The payload.
    pub data: T,
}

impl<T> Node<T> {
    pub closed spec fn spec_data(self) -> T {
        self.data
    }

    pub closed spec fn spec_parent(self) -> Option<NodeId> {
        self.parent
    }

    pub closed spec fn spec_next_sibling(self) -> Option<NodeId> {
        self.next_sibling
    }

    pub closed spec fn spec_previous_sibling(self) -> Option<NodeId> {
        self.previous_sibling
    }

    pub closed spec fn spec_first_child(self) -> Option<NodeId> {
        self.first_child
    }

    pub closed spec fn spec_last_child(self) -> Option<NodeId> {
        self.last_child
    }

    /// The node's parent link, or `None` for a root or detached node.
    pub fn parent(&self) -> (r: Option<NodeId>)
        ensures
            r == self.spec_parent(),
    {
        self.parent
    }

    /// The previous sibling, or `None` at the front of the chain.
    pub fn previous_sibling(&self) -> (r: Option<NodeId>)
        ensures
            r == self.spec_previous_sibling(),
    {
        self.previous_sibling
    }

    /// The next sibling, or `None` at the end of the chain.
    pub fn next_sibling(&self) -> (r: Option<NodeId>)
        ensures
            r == self.spec_next_sibling(),
    {
        self.next_sibling
    }

    /// The first child, or `None` if the node has no children.
    pub fn first_child(&self) -> (r: Option<NodeId>)
        ensures
            r == self.spec_first_child(),
    {
        self.first_child
    }

    /// The last child, or `None` if the node has no children.
    pub fn last_child(&self) -> (r: Option<NodeId>)
        ensures
            r == self.spec_last_child(),
    {
        self.last_child
    }
}

/// The store owning every node of one tree or forest.
pub struct Arena<T> {
    nodes: Vec<Node<T>>,
    kids: Ghost<Seq<Seq<int>>>,
}

impl<T> Arena<T> {
    /// Number of slots ever created.
    pub closed spec fn n(self) -> int {
        self.nodes@.len() as int
    }

    /// `id` names a slot this arena has issued.
    pub closed spec fn valid(self, id: NodeId) -> bool {
        0 <= id.idx() < self.n()
    }

    /// The ordered children (as slot numbers) of slot `p`.
    pub closed spec fn child_seq(self, p: int) -> Seq<int> {
        self.kids@[p]
    }

    /// The parent link of slot `i`, as a slot number.
    pub closed spec fn par(self, i: int) -> Option<int> {
        link(self.nodes@[i].parent)
    }

    /// The next-sibling link of slot `i`.
    pub closed spec fn nxt(self, i: int) -> Option<int> {
        link(self.nodes@[i].next_sibling)
    }

    /// The previous-sibling link of slot `i`.
    pub closed spec fn prv(self, i: int) -> Option<int> {
        link(self.nodes@[i].previous_sibling)
    }

    /// The first-child link of slot `i`.
    pub closed spec fn fst(self, i: int) -> Option<int> {
        link(self.nodes@[i].first_child)
    }

    /// The last-child link of slot `i`.
    pub closed spec fn lst(self, i: int) -> Option<int> {
        link(self.nodes@[i].last_child)
    }

    /// The payload of slot `i`.
    pub closed spec fn val(self, i: int) -> T {
        self.nodes@[i].data
    }

    /// The sibling chain under `p` agrees with `child_seq(p)`: the endpoints
    /// match, each member's parent is `p`, and the previous/next links step
    /// through the sequence in order, with no member repeated.
    pub closed spec fn chain_ok(self, p: int) -> bool {
        let ks = self.child_seq(p);
        &&& (ks.len() == 0 <==> self.fst(p) is None)
        &&& (ks.len() == 0 <==> self.lst(p) is None)
        &&& (ks.len() > 0 ==> self.fst(p) == Some(ks[0]) && self.lst(p) == Some(ks[ks.len() - 1]))
        &&& (forall|j: int|
            0 <= j < ks.len() ==> {
                &&& 0 <= #[trigger] ks[j] < self.n()
                &&& self.par(ks[j]) == Some(p)
                &&& self.prv(ks[j]) == (if j == 0 { None::<int> } else { Some(ks[j - 1]) })
                &&& self.nxt(ks[j]) == (if j == ks.len() - 1 { None::<int> } else { Some(ks[j + 1]) })
            })
        &&& ks.no_duplicates()
    }

    /// A node with a parent sits in that parent's child sequence; a node
    /// without a parent has no siblings.
    pub closed spec fn node_ok(self, c: int) -> bool {
        match self.par(c) {
            Some(p) => 0 <= p < self.n() && self.child_seq(p).contains(c),
            None => self.prv(c) is None && self.nxt(c) is None,
        }
    }

    /// Well-formedness: the concrete links and the abstract child sequences
    /// agree everywhere.
    pub closed spec fn wf(self) -> bool {
        &&& self.kids@.len() == self.n()
        &&& (forall|p: int| 0 <= p < self.n() ==> #[trigger] self.chain_ok(p))
        &&& (forall|c: int| 0 <= c < self.n() ==> #[trigger] self.node_ok(c))
    }

    /// Creates an empty arena.
    pub fn new() -> (r: Arena<T>)
        ensures
            r.wf(),
            r.n() == 0,
    {
        Arena { nodes: Vec::new(), kids: Ghost(Seq::empty()) }
    }

    /// Allocates a fresh, fully detached node holding `data` and returns its
    /// identity; every previously issued identity keeps its slot and state.
    pub fn new_node(&mut self, data: T) -> (r: NodeId)
        requires
            old(self).wf(),
        ensures
            final(self).wf(),
            final(self).n() == old(self).n() + 1,
            r.idx() == old(self).n(),
            final(self).valid(r),
            final(self).val(r.idx()) == data,
            final(self).par(r.idx()) is None,
            final(self).prv(r.idx()) is None,
            final(self).nxt(r.idx()) is None,
            final(self).child_seq(r.idx()) == Seq::<int>::empty(),
            forall|i: int|
                0 <= i < old(self).n() ==> final(self).val(i) == old(self).val(i)
                    && final(self).par(i) == old(self).par(i)
                    && #[trigger] final(self).child_seq(i) == old(self).child_seq(i),
    {
        let idx = self.nodes.len();
        self.nodes.push(
            Node {
                parent: None,
                next_sibling: None,
                previous_sibling: None,
                first_child: None,
                last_child: None,
                data,
            },
        );
        proof {
            self.kids@ = self.kids@.push(Seq::empty());
        }
        proof {
            let post = *self;
            let pre = *old(self);
            assert forall|p: int| 0 <= p < post.n() implies #[trigger] post.chain_ok(p) by {
                if p < pre.n() {
                    assert(pre.chain_ok(p));
                    assert(post.child_seq(p) =~= pre.child_seq(p));
                } else {
                    assert(post.child_seq(p) =~= Seq::<int>::empty());
                }
            }
            assert forall|c: int| 0 <= c < post.n() implies #[trigger] post.node_ok(c) by {
                if c < pre.n() {
                    assert(pre.node_ok(c));
                    if pre.par(c) is Some {
                        let p = pre.par(c)->Some_0;
                        assert(post.child_seq(p) =~= pre.child_seq(p));
                    }
                }
            }
        }
        NodeId { index: idx }
    }

    /// Resolves an identity to its node record.
    pub fn get(&self, id: NodeId) -> (r: &Node<T>)
        requires
            self.valid(id),
        ensures
            link(r.spec_parent()) == self.par(id.idx()),
            link(r.spec_next_sibling()) == self.nxt(id.idx()),
            link(r.spec_previous_sibling()) == self.prv(id.idx()),
            link(r.spec_first_child()) == self.fst(id.idx()),
            link(r.spec_last_child()) == self.lst(id.idx()),
            r.spec_data() == self.val(id.idx()),
    {
        &self.nodes[id.index]
    }
}

} // verus!


verus! {

impl<T> Arena<T> {
    /// `child_seq(q)` once node `c` has been unhooked from its parent:
    /// `c`'s former parent loses `c`, everyone else is unchanged.
    pub open spec fn child_seq_less(self, q: int, c: int) -> Seq<int> {
        if self.par(c) == Some(q) {
            self.child_seq(q).remove_value(c)
        } else {
            self.child_seq(q)
        }
    }
}

/// What `detach` does: `n` ends fully unhooked (parent and sibling links
/// cleared, its own children kept), its former parent's child sequence
/// loses `n`, and nothing else changes.
pub open spec fn detach_rel<T>(pre: Arena<T>, post: Arena<T>, n: int) -> bool {
    &&& post.wf()
    &&& post.n() == pre.n()
    &&& (forall|i: int| 0 <= i < pre.n() ==> #[trigger] post.val(i) == pre.val(i))
    &&& post.par(n) is None
    &&& post.prv(n) is None
    &&& post.nxt(n) is None
    &&& (pre.par(n) != Some(n) ==> post.fst(n) == pre.fst(n))
    &&& (pre.par(n) != Some(n) ==> post.lst(n) == pre.lst(n))
    &&& (forall|i: int| 0 <= i < pre.n() && i != n ==> #[trigger] post.par(i) == pre.par(i))
    &&& (forall|q: int| 0 <= q < pre.n() ==> #[trigger] post.child_seq(q) == pre.child_seq_less(q, n))
}

/// In a duplicate-free sequence, removing a value removes exactly the slot
/// `index_of` points at, shifting the tail left.
proof fn proof_remove_value_at(ks: Seq<int>, v: int, j: int)
    requires
        ks.no_duplicates(),
        ks.contains(v),
        j == ks.index_of(v),
    ensures
        0 <= j < ks.len(),
        ks[j] == v,
        ks.remove_value(v) == ks.remove(j),
        ks.remove_value(v).len() == ks.len() - 1,
        forall|i: int| 0 <= i < j ==> #[trigger] ks.remove_value(v)[i] == ks[i],
        forall|i: int| j <= i < ks.len() - 1 ==> #[trigger] ks.remove_value(v)[i] == ks[i + 1],
{
    ks.index_of_first_ensures(v);
    let i0 = ks.index_of_first(v)->Some_0;
    assert(ks[i0] == v && ks[j] == v);
    assert(i0 == j);
    ks.remove_ensures(j);
}

/// Where a parented node sits in its parent's child sequence, and how its
/// sibling links and the parent's endpoints relate to that position.
proof fn lemma_member<T>(a: Arena<T>, c: int)
    requires
        a.wf(),
        0 <= c < a.n(),
        a.par(c) is Some,
    ensures
        ({
            let p = a.par(c)->Some_0;
            let ks = a.child_seq(p);
            let j = ks.index_of(c);
            &&& 0 <= p < a.n()
            &&& ks.contains(c)
            &&& 0 <= j < ks.len()
            &&& ks[j] == c
            &&& a.prv(c) == (if j == 0 { None::<int> } else { Some(ks[j - 1]) })
            &&& a.nxt(c) == (if j == ks.len() - 1 { None::<int> } else { Some(ks[j + 1]) })
            &&& (a.prv(c) is Some ==> 0 <= a.prv(c)->Some_0 < a.n()
                && a.par(a.prv(c)->Some_0) == Some(p))
            &&& (a.nxt(c) is Some ==> 0 <= a.nxt(c)->Some_0 < a.n()
                && a.par(a.nxt(c)->Some_0) == Some(p))
            &&& (a.prv(c) is None <==> a.fst(p) == Some(c))
            &&& (a.nxt(c) is None <==> a.lst(p) == Some(c))
            &&& (a.prv(c) is Some ==> a.prv(c)->Some_0 != c)
            &&& (a.nxt(c) is Some ==> a.nxt(c)->Some_0 != c)
        }),
{
    let p = a.par(c)->Some_0;
    assert(a.node_ok(c));
    assert(a.chain_ok(p));
    let ks = a.child_seq(p);
    assert(ks.contains(c));
    let j = ks.index_of(c);
    assert(0 <= j < ks.len() && ks[j] == c);
    if a.prv(c) is None {
        assert(j == 0);
        assert(a.fst(p) == Some(ks[0]));
    } else {
        assert(j != 0);
        assert(a.prv(c) == Some(ks[j - 1]));
        if a.fst(p) == Some(c) {
            // c at the front would have no previous sibling
            assert(ks[0] == c);
            assert(ks.no_duplicates());
            assert(j == 0);
            assert(false);
        }
    }
    if a.nxt(c) is None {
        assert(j == ks.len() - 1);
    } else {
        assert(j != ks.len() - 1);
        if a.lst(p) == Some(c) {
            assert(ks[ks.len() - 1] == c);
            assert(ks.no_duplicates());
            assert(j == ks.len() - 1);
            assert(false);
        }
    }
}

impl NodeId {
    /// Removes this node from its parent's child list and sibling chain,
    /// clearing its parent and sibling links; the node's own children move
    /// with it as a subtree. A no-op on an already detached node.
    pub fn detach<T>(self, arena: &mut Arena<T>)
        requires
            old(arena).wf(),
            old(arena).valid(self),
        ensures
            detach_rel(*old(arena), *final(arena), self.idx()),
    {
        let ghost pre = *old(arena);
        let ghost ni = self.idx();
        let n = self.index;
        let parent = arena.nodes[n].parent;
        let previous_sibling = arena.nodes[n].previous_sibling;
        let next_sibling = arena.nodes[n].next_sibling;

        proof {
            assert(pre.node_ok(ni));
            if pre.par(ni) is Some {
                lemma_member(pre, ni);
            }
        }

        if let Some(prev) = previous_sibling {
            arena.nodes[prev.index].next_sibling = next_sibling;
        } else if let Some(p) = parent {
            arena.nodes[p.index].first_child = next_sibling;
        }
        if let Some(next) = next_sibling {
            arena.nodes[next.index].previous_sibling = previous_sibling;
        } else if let Some(p) = parent {
            arena.nodes[p.index].last_child = previous_sibling;
        }
        arena.nodes[n].parent = None;
        arena.nodes[n].previous_sibling = None;
        arena.nodes[n].next_sibling = None;

        proof {
            if pre.par(ni) is Some {
                let p = pre.par(ni)->Some_0;
                arena.kids@ = arena.kids@.update(p, pre.child_seq(p).remove_value(ni));
            }
            lemma_detach_wf(pre, *arena, ni);
        }
    }
}

/// After the link surgery and ghost update of `detach`, the arena is well
/// formed again and the detach relation holds.
#[verifier::rlimit(100)]
#[verifier::spinoff_prover]
proof fn lemma_detach_wf<T>(pre: Arena<T>, post: Arena<T>, n: int)
    requires
        pre.wf(),
        0 <= n < pre.n(),
        post.n() == pre.n(),
        // payloads and untouched links
        (forall|i: int| 0 <= i < pre.n() ==> #[trigger] post.val(i) == pre.val(i)),
        post.par(n) is None,
        post.prv(n) is None,
        post.nxt(n) is None,
        (forall|i: int| 0 <= i < pre.n() && i != n ==> #[trigger] post.par(i) == pre.par(i)),
        // ghost child sequences already updated
        post.kids@.len() == pre.kids@.len(),
        (forall|q: int| 0 <= q < pre.n() ==> #[trigger] post.child_seq(q) == pre.child_seq_less(q, n)),
        // the four concrete splice writes
        ({
            if pre.par(n) is Some {
                let p = pre.par(n)->Some_0;
                let ks = pre.child_seq(p);
                let j = ks.index_of(n);
                &&& (pre.prv(n) is Some ==> post.nxt(pre.prv(n)->Some_0) == pre.nxt(n))
                &&& (pre.prv(n) is None ==> post.fst(p) == pre.nxt(n))
                &&& (pre.nxt(n) is Some ==> post.prv(pre.nxt(n)->Some_0) == pre.prv(n))
                &&& (pre.nxt(n) is None ==> post.lst(p) == pre.prv(n))
                &&& (forall|i: int|
                    0 <= i < pre.n() && i != n
                        && Some(i) != pre.prv(n) ==> #[trigger] post.nxt(i) == pre.nxt(i))
                &&& (forall|i: int|
                    0 <= i < pre.n() && i != n
                        && Some(i) != pre.nxt(n) ==> #[trigger] post.prv(i) == pre.prv(i))
                &&& (forall|i: int|
                    0 <= i < pre.n() && (i != p || pre.prv(n) is Some)
                        ==> #[trigger] post.fst(i) == pre.fst(i))
                &&& (forall|i: int|
                    0 <= i < pre.n() && (i != p || pre.nxt(n) is Some)
                        ==> #[trigger] post.lst(i) == pre.lst(i))
            } else {
                &&& (forall|i: int| 0 <= i < pre.n() && i != n ==> #[trigger] post.nxt(i) == pre.nxt(i))
                &&& (forall|i: int| 0 <= i < pre.n() && i != n ==> #[trigger] post.prv(i) == pre.prv(i))
                &&& (forall|i: int| 0 <= i < pre.n() ==> #[trigger] post.fst(i) == pre.fst(i))
                &&& (forall|i: int| 0 <= i < pre.n() ==> #[trigger] post.lst(i) == pre.lst(i))
            }
        }),
    ensures
        detach_rel(pre, post, n),
{
    assert(pre.node_ok(n));
    if pre.par(n) is None {
        // nothing was linked to n; every chain reads the same values
        assert forall|q: int| 0 <= q < post.n() implies #[trigger] post.chain_ok(q) by {
            assert(pre.chain_ok(q));
            let ks = pre.child_seq(q);
            assert(post.child_seq(q) == ks);
            assert forall|j: int| 0 <= j < ks.len() implies
                0 <= #[trigger] ks[j] < post.n()
                && post.par(ks[j]) == Some(q)
                && post.prv(ks[j]) == (if j == 0 { None::<int> } else { Some(ks[j - 1]) })
                && post.nxt(ks[j]) == (if j == ks.len() - 1 { None::<int> } else { Some(ks[j + 1]) }) by {
                assert(ks[j] != n) by {
                    if ks[j] == n {
                        assert(pre.par(n) == Some(q));
                    }
                }
            }
        }
        assert forall|c: int| 0 <= c < post.n() implies #[trigger] post.node_ok(c) by {
            assert(pre.node_ok(c));
            if c != n && pre.par(c) is Some {
                let q = pre.par(c)->Some_0;
                assert(post.child_seq(q) == pre.child_seq(q));
            }
        }
        assert(detach_rel(pre, post, n));
    } else {
        let p = pre.par(n)->Some_0;
        lemma_member(pre, n);
        let ks = pre.child_seq(p);
        let j = ks.index_of(n);
        let ks2 = ks.remove_value(n);
        assert(pre.chain_ok(p));
        proof_remove_value_at(ks, n, j);
        assert(ks2.len() == ks.len() - 1);
        assert(forall|i: int| 0 <= i < j ==> #[trigger] ks2[i] == ks[i]);
        assert(forall|i: int| j <= i < ks2.len() ==> #[trigger] ks2[i] == ks[i + 1]);

        assert forall|q: int| 0 <= q < post.n() implies #[trigger] post.chain_ok(q) by {
            assert(pre.chain_ok(q));
            if q != p {
                let ksq = pre.child_seq(q);
                assert(post.child_seq(q) == ksq);
                // no member of q's chain was touched: n, its neighbours, and
                // p's endpoints all live under p
                assert forall|i: int| 0 <= i < ksq.len() implies
                    0 <= #[trigger] ksq[i] < post.n()
                    && post.par(ksq[i]) == Some(q)
                    && post.prv(ksq[i]) == (if i == 0 { None::<int> } else { Some(ksq[i - 1]) })
                    && post.nxt(ksq[i]) == (if i == ksq.len() - 1 { None::<int> } else { Some(ksq[i + 1]) }) by {
                    let m = ksq[i];
                    assert(pre.par(m) == Some(q));
                    assert(m != n);
                    assert(Some(m) != pre.prv(n));
                    assert(Some(m) != pre.nxt(n));
                }
                assert(post.fst(q) == pre.fst(q));
                assert(post.lst(q) == pre.lst(q));
            } else {
                assert(post.child_seq(p) == ks2);
                assert(ks2.no_duplicates()) by {
                    assert forall|x: int, y: int| 0 <= x < y < ks2.len() implies ks2[x] != ks2[y] by {
                        let xo = if x < j { x } else { x + 1 };
                        let yo = if y < j { y } else { y + 1 };
                        assert(ks2[x] == ks[xo] && ks2[y] == ks[yo]);
                    }
                }
                assert forall|i: int| 0 <= i < ks2.len() implies
                    0 <= #[trigger] ks2[i] < post.n()
                    && post.par(ks2[i]) == Some(p)
                    && post.prv(ks2[i]) == (if i == 0 { None::<int> } else { Some(ks2[i - 1]) })
                    && post.nxt(ks2[i]) == (if i == ks2.len() - 1 { None::<int> } else { Some(ks2[i + 1]) }) by {
                    let m = ks2[i];
                    let io = if i < j { i } else { i + 1 };
                    assert(m == ks[io] && m != n);
                    assert(pre.par(m) == Some(p));
                    // previous link of m after the splice
                    if i == 0 {
                        if io == 0 {
                            assert(Some(m) != pre.nxt(n));
                            assert(post.prv(m) == pre.prv(m));
                        } else {
                            // io == 1, j == 0: m was n's next sibling
                            assert(pre.nxt(n) == Some(m));
                            assert(post.prv(m) == pre.prv(n));
                            assert(pre.prv(n) is None);
                        }
                    } else {
                        if io == i {
                            // both m and its new previous sibling sit left of j
                            assert(Some(m) != pre.nxt(n));
                            assert(post.prv(m) == pre.prv(m));
                            assert(pre.prv(m) == Some(ks[io - 1]));
                            assert(ks2[i - 1] == ks[i - 1]);
                        } else {
                            // io == i + 1
                            if io == j + 1 {
                                assert(pre.nxt(n) == Some(m));
                                assert(post.prv(m) == pre.prv(n));
                                assert(pre.prv(n) == Some(ks[j - 1]));
                                assert(ks2[i - 1] == ks[j - 1]);
                            } else {
                                assert(Some(m) != pre.nxt(n)) by {
                                    if pre.nxt(n) == Some(m) {
                                        assert(ks[j + 1] == ks[io]);
                                    }
                                }
                                assert(post.prv(m) == pre.prv(m));
                                assert(pre.prv(m) == Some(ks[io - 1]));
                                assert(ks2[i - 1] == ks[io - 1]);
                            }
                        }
                    }
                    // next link of m after the splice
                    if i == ks2.len() - 1 {
                        if io == ks.len() - 1 {
                            assert(Some(m) != pre.prv(n));
                            assert(post.nxt(m) == pre.nxt(m));
                        } else {
                            // m was n's previous sibling and n was last
                            assert(io == j - 1 && j == ks.len() - 1);
                            assert(pre.prv(n) == Some(m));
                            assert(post.nxt(m) == pre.nxt(n));
                            assert(pre.nxt(n) is None);
                        }
                    } else {
                        if io == i && io != j - 1 {
                            assert(Some(m) != pre.prv(n)) by {
                                if pre.prv(n) == Some(m) {
                                    assert(j != 0 && ks[j - 1] == ks[io]);
                                }
                            }
                            assert(post.nxt(m) == pre.nxt(m));
                            assert(pre.nxt(m) == Some(ks[io + 1]));
                            assert(ks2[i + 1] == ks[io + 1]);
                        } else if io == i {
                            // m is n's previous sibling; its new next is n's old next
                            assert(io == j - 1);
                            assert(pre.prv(n) == Some(m));
                            assert(post.nxt(m) == pre.nxt(n));
                            assert(pre.nxt(n) == Some(ks[j + 1]));
                            assert(ks2[i + 1] == ks[j + 1]);
                        } else {
                            // io == i + 1 > j: m sits right of the removed slot
                            assert(Some(m) != pre.prv(n)) by {
                                if pre.prv(n) == Some(m) {
                                    assert(j != 0 && ks[j - 1] == ks[io]);
                                }
                            }
                            assert(post.nxt(m) == pre.nxt(m));
                            assert(pre.nxt(m) == Some(ks[io + 1]));
                            assert(ks2[i + 1] == ks[io + 1]);
                        }
                    }
                }
                // endpoints of p
                if ks2.len() == 0 {
                    assert(ks.len() == 1 && j == 0);
                    assert(pre.prv(n) is None && pre.nxt(n) is None);
                    assert(post.fst(p) is None && post.lst(p) is None);
                } else {
                    if j == 0 {
                        assert(pre.prv(n) is None);
                        assert(post.fst(p) == pre.nxt(n));
                        assert(pre.nxt(n) == Some(ks[1]));
                        assert(ks2[0] == ks[1]);
                    } else {
                        assert(pre.prv(n) is Some);
                        assert(post.fst(p) == pre.fst(p));
                        assert(ks2[0] == ks[0]);
                    }
                    if j == ks.len() - 1 {
                        assert(pre.nxt(n) is None);
                        assert(post.lst(p) == pre.prv(n));
                        assert(pre.prv(n) == Some(ks[j - 1]));
                        assert(ks2[ks2.len() - 1] == ks[j - 1]);
                    } else {
                        assert(pre.nxt(n) is Some);
                        assert(post.lst(p) == pre.lst(p));
                        assert(ks2[ks2.len() - 1] == ks[ks.len() - 1]);
                    }
                }
            }
        }
        assert forall|c: int| 0 <= c < post.n() implies #[trigger] post.node_ok(c) by {
            assert(pre.node_ok(c));
            if c != n {
                if pre.par(c) is Some {
                    let q = pre.par(c)->Some_0;
                    if q == p {
                        let i = ks.index_of(c);
                        assert(ks[i] == c && i != j);
                        if i < j {
                            assert(ks2[i] == c);
                        } else {
                            assert(ks2[i - 1] == c);
                        }
                        assert(ks2.contains(c));
                    }
                }
            }
        }
        assert(detach_rel(pre, post, n));
    }
}

} // verus!

verus! {

/// What the four relink operations do: `c` ends up the child of `p` at
/// position `j` of `p`'s child sequence, after first having been detached
/// from wherever it stood; nothing else changes.
pub open spec fn insert_child_rel<T>(pre: Arena<T>, post: Arena<T>, p: int, c: int, j: int) -> bool {
    &&& post.wf()
    &&& post.n() == pre.n()
    &&& (forall|i: int| 0 <= i < pre.n() ==> #[trigger] post.val(i) == pre.val(i))
    &&& post.par(c) == Some(p)
    &&& (forall|i: int| 0 <= i < pre.n() && i != c ==> #[trigger] post.par(i) == pre.par(i))
    &&& post.child_seq(p) == pre.child_seq_less(p, c).insert(j, c)
    &&& (forall|q: int|
        0 <= q < pre.n() && q != p ==> #[trigger] post.child_seq(q) == pre.child_seq_less(q, c))
}

/// After splicing the detached node `c` into `p`'s chain at position `j`
/// (with the writes listed in the hypotheses), the arena is well formed.
#[verifier::rlimit(100)]
#[verifier::spinoff_prover]
proof fn lemma_insert_wf<T>(mid: Arena<T>, post: Arena<T>, p: int, c: int, j: int)
    requires
        mid.wf(),
        0 <= c < mid.n(),
        0 <= p < mid.n(),
        mid.par(c) is None,
        0 <= j <= mid.child_seq(p).len(),
        post.n() == mid.n(),
        (forall|i: int| 0 <= i < mid.n() ==> #[trigger] post.val(i) == mid.val(i)),
        post.kids@.len() == mid.kids@.len(),
        post.child_seq(p) == mid.child_seq(p).insert(j, c),
        (forall|q: int|
            0 <= q < mid.n() && q != p ==> #[trigger] post.child_seq(q) == mid.child_seq(q)),
        post.par(c) == Some(p),
        (forall|i: int| 0 <= i < mid.n() && i != c ==> #[trigger] post.par(i) == mid.par(i)),
        ({
            let ks = mid.child_seq(p);
            let ln = if j > 0 { Some(ks[j - 1]) } else { None::<int> };
            let rn = if j < ks.len() { Some(ks[j]) } else { None::<int> };
            &&& post.prv(c) == ln
            &&& post.nxt(c) == rn
            &&& (j > 0 ==> post.nxt(ks[j - 1]) == Some(c))
            &&& (j < ks.len() ==> post.prv(ks[j]) == Some(c))
            &&& (j == 0 ==> post.fst(p) == Some(c))
            &&& (j == ks.len() ==> post.lst(p) == Some(c))
            &&& (forall|i: int|
                0 <= i < mid.n() && i != c && Some(i) != ln ==> #[trigger] post.nxt(i) == mid.nxt(i))
            &&& (forall|i: int|
                0 <= i < mid.n() && i != c && Some(i) != rn ==> #[trigger] post.prv(i) == mid.prv(i))
            &&& (forall|i: int|
                0 <= i < mid.n() && (i != p || j != 0) ==> #[trigger] post.fst(i) == mid.fst(i))
            &&& (forall|i: int|
                0 <= i < mid.n() && (i != p || j != ks.len()) ==> #[trigger] post.lst(i) == mid.lst(i))
        }),
    ensures
        post.wf(),
{
    let ks = mid.child_seq(p);
    let ks2 = ks.insert(j, c);
    assert(mid.chain_ok(p));
    assert(mid.node_ok(c));
    assert(!ks.contains(c)) by {
        if ks.contains(c) {
            let i = choose|i: int| 0 <= i < ks.len() && ks[i] == c;
            assert(mid.par(ks[i]) == Some(p));
        }
    }
    ks.insert_ensures(j, c);
    assert(ks2.len() == ks.len() + 1);

    assert forall|q: int| 0 <= q < post.n() implies #[trigger] post.chain_ok(q) by {
        assert(mid.chain_ok(q));
        if q != p {
            let ksq = mid.child_seq(q);
            assert(post.child_seq(q) == ksq);
            assert forall|i: int| 0 <= i < ksq.len() implies
                0 <= #[trigger] ksq[i] < post.n()
                && post.par(ksq[i]) == Some(q)
                && post.prv(ksq[i]) == (if i == 0 { None::<int> } else { Some(ksq[i - 1]) })
                && post.nxt(ksq[i]) == (if i == ksq.len() - 1 { None::<int> } else { Some(ksq[i + 1]) }) by {
                let m = ksq[i];
                assert(mid.par(m) == Some(q));
                assert(m != c);
                assert(j > 0 ==> mid.par(ks[j - 1]) == Some(p));
                assert(j < ks.len() ==> mid.par(ks[j]) == Some(p));
            }
        } else {
            assert(post.child_seq(p) == ks2);
            assert(ks2.no_duplicates()) by {
                assert forall|x: int, y: int| 0 <= x < y < ks2.len() implies ks2[x] != ks2[y] by {
                    if x == j {
                        assert(ks2[x] == c && ks2[y] == ks[y - 1]);
                    } else if y == j {
                        assert(ks2[y] == c && ks2[x] == ks[x]);
                    } else {
                        let xo = if x < j { x } else { x - 1 };
                        let yo = if y < j { y } else { y - 1 };
                        assert(ks2[x] == ks[xo] && ks2[y] == ks[yo]);
                    }
                }
            }
            assert forall|i: int| 0 <= i < ks2.len() implies
                0 <= #[trigger] ks2[i] < post.n()
                && post.par(ks2[i]) == Some(p)
                && post.prv(ks2[i]) == (if i == 0 { None::<int> } else { Some(ks2[i - 1]) })
                && post.nxt(ks2[i]) == (if i == ks2.len() - 1 { None::<int> } else { Some(ks2[i + 1]) }) by {
                if i == j {
                    // the new member
                    assert(ks2[i] == c);
                    assert(j > 0 ==> ks2[j - 1] == ks[j - 1]);
                    assert(j < ks.len() ==> ks2[j + 1] == ks[j]);
                } else {
                    let io = if i < j { i } else { i - 1 };
                    let m = ks2[i];
                    assert(m == ks[io]);
                    assert(mid.par(m) == Some(p));
                    assert(m != c);
                    // previous link
                    if i == 0 {
                        assert(io == 0 && j != 0);
                        assert(Some(m) != (if j < ks.len() { Some(ks[j]) } else { None::<int> }))
                        by {
                            if j < ks.len() && ks[j] == m {
                                assert(ks[j] == ks[0] && j != 0);
                            }
                        }
                        assert(post.prv(m) == mid.prv(m));
                    } else if i == j + 1 {
                        // right neighbour of the new node
                        assert(io == j && j < ks.len());
                        assert(post.prv(m) == Some(c));
                        assert(ks2[i - 1] == c);
                    } else {
                        assert(Some(m) != (if j < ks.len() { Some(ks[j]) } else { None::<int> }))
                        by {
                            if j < ks.len() && ks[j] == m {
                                assert(ks[j] == ks[io] && io != j);
                            }
                        }
                        assert(post.prv(m) == mid.prv(m));
                        assert(mid.prv(m) == Some(ks[io - 1]));
                        if i < j {
                            assert(ks2[i - 1] == ks[i - 1]);
                        } else {
                            assert(ks2[i - 1] == ks[io - 1]);
                        }
                    }
                    // next link
                    if i == ks2.len() - 1 {
                        assert(io == ks.len() - 1 && j != ks.len());
                        assert(Some(m) != (if j > 0 { Some(ks[j - 1]) } else { None::<int> }))
                        by {
                            if j > 0 && ks[j - 1] == m {
                                assert(ks[j - 1] == ks[io] && j - 1 != io);
                            }
                        }
                        assert(post.nxt(m) == mid.nxt(m));
                    } else if i == j - 1 {
                        // left neighbour of the new node
                        assert(io == j - 1 && j > 0);
                        assert(post.nxt(m) == Some(c));
                        assert(ks2[i + 1] == c);
                    } else {
                        assert(Some(m) != (if j > 0 { Some(ks[j - 1]) } else { None::<int> }))
                        by {
                            if j > 0 && ks[j - 1] == m {
                                assert(ks[j - 1] == ks[io] && j - 1 != io);
                            }
                        }
                        assert(post.nxt(m) == mid.nxt(m));
                        assert(mid.nxt(m) == Some(ks[io + 1]));
                        if i < j - 1 {
                            assert(ks2[i + 1] == ks[i + 1]);
                        } else {
                            assert(ks2[i + 1] == ks[io + 1]);
                        }
                    }
                }
            }
            // endpoints
            if j == 0 {
                assert(post.fst(p) == Some(c) && ks2[0] == c);
            } else {
                assert(post.fst(p) == mid.fst(p));
                assert(ks2[0] == ks[0]);
            }
            if j == ks.len() {
                assert(post.lst(p) == Some(c) && ks2[ks2.len() - 1] == c);
            } else {
                assert(post.lst(p) == mid.lst(p));
                assert(ks2[ks2.len() - 1] == ks[ks.len() - 1]);
            }
        }
    }
    assert forall|x: int| 0 <= x < post.n() implies #[trigger] post.node_ok(x) by {
        assert(mid.node_ok(x));
        if x == c {
            assert(ks2[j] == c);
            assert(post.child_seq(p).contains(c));
        } else if mid.par(x) is Some {
            let q = mid.par(x)->Some_0;
            if q == p {
                let i = ks.index_of(x);
                assert(ks.contains(x));
                assert(ks[i] == x);
                if i < j {
                    assert(ks2[i] == x);
                } else {
                    assert(ks2[i + 1] == x);
                }
                assert(ks2.contains(x));
            }
        }
    }
}

} // verus!

verus! {

impl NodeId {
    /// Detaches `child` and makes it the last child of `self`.
    pub fn append<T>(self, arena: &mut Arena<T>, child: NodeId)
        requires
            old(arena).wf(),
            old(arena).valid(self),
            old(arena).valid(child),
            self != child,
        ensures
            insert_child_rel(
                *old(arena),
                *final(arena),
                self.idx(),
                child.idx(),
                old(arena).child_seq_less(self.idx(), child.idx()).len() as int,
            ),
    {
        let ghost pre = *old(arena);
        let ghost p = self.idx();
        let ghost c = child.idx();
        child.detach(arena);
        let ghost mid = *arena;
        let ghost ks = mid.child_seq(p);
        proof {
            assert(mid.chain_ok(p));
            assert(pre.child_seq_less(p, c) == ks);
        }
        arena.nodes[child.index].parent = Some(self);
        let last = arena.nodes[self.index].last_child;
        if let Some(last_child) = last {
            proof {
                assert(mid.lst(p) == Some(ks[ks.len() - 1]));
            }
            arena.nodes[last_child.index].next_sibling = Some(child);
            arena.nodes[child.index].previous_sibling = Some(last_child);
        } else {
            arena.nodes[self.index].first_child = Some(child);
        }
        arena.nodes[self.index].last_child = Some(child);
        proof {
            arena.kids@ = arena.kids@.update(p, ks.insert(ks.len() as int, c));
            lemma_insert_wf(mid, *arena, p, c, ks.len() as int);
            assert forall|i: int| 0 <= i < pre.n() implies #[trigger] (*arena).val(i) == pre.val(i) by {
                assert(mid.val(i) == pre.val(i));
            }
            assert forall|i: int| 0 <= i < pre.n() && i != c implies #[trigger] (*arena).par(i)
                == pre.par(i) by {
                assert(mid.par(i) == pre.par(i));
            }
            assert forall|q: int| 0 <= q < pre.n() && q != p implies #[trigger] (*arena).child_seq(q)
                == pre.child_seq_less(q, c) by {
                assert(mid.child_seq(q) == pre.child_seq_less(q, c));
            }
        }
    }

    /// Detaches `child` and makes it the first child of `self`.
    pub fn prepend<T>(self, arena: &mut Arena<T>, child: NodeId)
        requires
            old(arena).wf(),
            old(arena).valid(self),
            old(arena).valid(child),
            self != child,
        ensures
            insert_child_rel(*old(arena), *final(arena), self.idx(), child.idx(), 0),
    {
        let ghost pre = *old(arena);
        let ghost p = self.idx();
        let ghost c = child.idx();
        child.detach(arena);
        let ghost mid = *arena;
        let ghost ks = mid.child_seq(p);
        proof {
            assert(mid.chain_ok(p));
            assert(pre.child_seq_less(p, c) == ks);
        }
        arena.nodes[child.index].parent = Some(self);
        let first = arena.nodes[self.index].first_child;
        if let Some(first_child) = first {
            proof {
                assert(mid.fst(p) == Some(ks[0]));
            }
            arena.nodes[first_child.index].previous_sibling = Some(child);
            arena.nodes[child.index].next_sibling = Some(first_child);
        } else {
            arena.nodes[self.index].last_child = Some(child);
        }
        arena.nodes[self.index].first_child = Some(child);
        proof {
            arena.kids@ = arena.kids@.update(p, ks.insert(0, c));
            lemma_insert_wf(mid, *arena, p, c, 0);
            assert forall|i: int| 0 <= i < pre.n() implies #[trigger] (*arena).val(i) == pre.val(i) by {
                assert(mid.val(i) == pre.val(i));
            }
            assert forall|i: int| 0 <= i < pre.n() && i != c implies #[trigger] (*arena).par(i)
                == pre.par(i) by {
                assert(mid.par(i) == pre.par(i));
            }
            assert forall|q: int| 0 <= q < pre.n() && q != p implies #[trigger] (*arena).child_seq(q)
                == pre.child_seq_less(q, c) by {
                assert(mid.child_seq(q) == pre.child_seq_less(q, c));
            }
        }
    }

    /// Detaches `node` and splices it in as the sibling immediately before
    /// `self`; `node` inherits `self`'s parent. `self` must currently have a
    /// parent: next to a parentless node there is no chain to splice into.
    pub fn insert_before<T>(self, arena: &mut Arena<T>, node: NodeId)
        requires
            old(arena).wf(),
            old(arena).valid(self),
            old(arena).valid(node),
            self != node,
            old(arena).par(self.idx()) is Some,
        ensures
            ({
                let p = old(arena).par(self.idx())->Some_0;
                let mid = old(arena).child_seq_less(p, node.idx());
                insert_child_rel(*old(arena), *final(arena), p, node.idx(), mid.index_of(self.idx()))
            }),
    {
        let ghost pre = *old(arena);
        let ghost s = self.idx();
        let ghost c = node.idx();
        node.detach(arena);
        let ghost mid = *arena;
        let ghost p = mid.par(s)->Some_0;
        let ghost ks = mid.child_seq(p);
        let ghost j = ks.index_of(s);
        proof {
            assert(mid.par(s) == pre.par(s));
            lemma_member(mid, s);
            assert(pre.child_seq_less(p, c) == ks);
        }
        let parent = arena.nodes[self.index].parent;
        let previous_sibling = arena.nodes[self.index].previous_sibling;
        if let Some(prev) = previous_sibling {
            arena.nodes[prev.index].next_sibling = Some(node);
            arena.nodes[node.index].previous_sibling = Some(prev);
        } else {
            if let Some(par_id) = parent {
                arena.nodes[par_id.index].first_child = Some(node);
            }
        }
        arena.nodes[node.index].next_sibling = Some(self);
        arena.nodes[self.index].previous_sibling = Some(node);
        arena.nodes[node.index].parent = parent;
        proof {
            arena.kids@ = arena.kids@.update(p, ks.insert(j, c));
            lemma_insert_wf(mid, *arena, p, c, j);
            assert forall|i: int| 0 <= i < pre.n() implies #[trigger] (*arena).val(i) == pre.val(i) by {
                assert(mid.val(i) == pre.val(i));
            }
            assert forall|i: int| 0 <= i < pre.n() && i != c implies #[trigger] (*arena).par(i)
                == pre.par(i) by {
                assert(mid.par(i) == pre.par(i));
            }
            assert forall|q: int| 0 <= q < pre.n() && q != p implies #[trigger] (*arena).child_seq(q)
                == pre.child_seq_less(q, c) by {
                assert(mid.child_seq(q) == pre.child_seq_less(q, c));
            }
        }
    }

    /// Detaches `node` and splices it in as the sibling immediately after
    /// `self`; `node` inherits `self`'s parent. `self` must currently have a
    /// parent: next to a parentless node there is no chain to splice into.
    pub fn insert_after<T>(self, arena: &mut Arena<T>, node: NodeId)
        requires
            old(arena).wf(),
            old(arena).valid(self),
            old(arena).valid(node),
            self != node,
            old(arena).par(self.idx()) is Some,
        ensures
            ({
                let p = old(arena).par(self.idx())->Some_0;
                let mid = old(arena).child_seq_less(p, node.idx());
                insert_child_rel(
                    *old(arena),
                    *final(arena),
                    p,
                    node.idx(),
                    mid.index_of(self.idx()) + 1,
                )
            }),
    {
        let ghost pre = *old(arena);
        let ghost s = self.idx();
        let ghost c = node.idx();
        node.detach(arena);
        let ghost mid = *arena;
        let ghost p = mid.par(s)->Some_0;
        let ghost ks = mid.child_seq(p);
        let ghost j = ks.index_of(s) + 1;
        proof {
            assert(mid.par(s) == pre.par(s));
            lemma_member(mid, s);
            assert(pre.child_seq_less(p, c) == ks);
        }
        let parent = arena.nodes[self.index].parent;
        let next_sibling = arena.nodes[self.index].next_sibling;
        arena.nodes[node.index].parent = parent;
        arena.nodes[node.index].previous_sibling = Some(self);
        arena.nodes[self.index].next_sibling = Some(node);
        if let Some(next) = next_sibling {
            arena.nodes[node.index].next_sibling = Some(next);
            arena.nodes[next.index].previous_sibling = Some(node);
        } else {
            if let Some(par_id) = parent {
                arena.nodes[par_id.index].last_child = Some(node);
            }
        }
        proof {
            arena.kids@ = arena.kids@.update(p, ks.insert(j, c));
            lemma_insert_wf(mid, *arena, p, c, j);
            assert forall|i: int| 0 <= i < pre.n() implies #[trigger] (*arena).val(i) == pre.val(i) by {
                assert(mid.val(i) == pre.val(i));
            }
            assert forall|i: int| 0 <= i < pre.n() && i != c implies #[trigger] (*arena).par(i)
                == pre.par(i) by {
                assert(mid.par(i) == pre.par(i));
            }
            assert forall|q: int| 0 <= q < pre.n() && q != p implies #[trigger] (*arena).child_seq(q)
                == pre.child_seq_less(q, c) by {
                assert(mid.child_seq(q) == pre.child_seq_less(q, c));
            }
        }
    }
}

} // verus!

verus! {

impl<T> Arena<T> {
    /// Pre-order of the subtree under `r`, allowed to descend at most `fuel`
    /// levels; `None` when the depth exceeds the fuel — in particular on a
    /// link cycle, which no finite fuel exhausts.
    pub closed spec fn preorder_fuel(self, r: int, fuel: nat) -> Option<Seq<int>>
        decreases fuel, 0nat,
    {
        if fuel == 0 {
            None
        } else {
            match self.forest_fuel(self.child_seq(r), (fuel - 1) as nat) {
                Some(s) => Some(seq![r] + s),
                None => None,
            }
        }
    }

    /// Concatenated fuel-bounded pre-orders of the subtrees listed in `ks`.
    pub closed spec fn forest_fuel(self, ks: Seq<int>, fuel: nat) -> Option<Seq<int>>
        decreases fuel, ks.len() + 1,
    {
        if ks.len() == 0 {
            Some(Seq::empty())
        } else {
            match (
                self.preorder_fuel(ks[0], fuel),
                self.forest_fuel(ks.subrange(1, ks.len() as int), fuel),
            ) {
                (Some(a), Some(b)) => Some(a + b),
                _ => None,
            }
        }
    }

    /// The subtree under `r` is a finite tree: some depth bound suffices.
    /// Structural edits can only break this by cycle-creating misuse, which
    /// the store does not police.
    pub closed spec fn finite_at(self, r: int) -> bool {
        exists|fuel: nat| (#[trigger] self.preorder_fuel(r, fuel)) is Some
    }

    /// The pre-order sequence of slot numbers of the subtree under `r`
    /// (meaningful whenever `finite_at(r)` holds).
    pub closed spec fn preorder(self, r: int) -> Seq<int> {
        let fuel = choose|fuel: nat| (#[trigger] self.preorder_fuel(r, fuel)) is Some;
        self.preorder_fuel(r, fuel)->Some_0
    }

    /// Concatenated pre-orders of the subtrees listed in `ks`.
    pub closed spec fn preorder_cat(self, ks: Seq<int>) -> Seq<int>
        decreases ks.len(),
    {
        if ks.len() == 0 {
            Seq::empty()
        } else {
            self.preorder(ks[0]) + self.preorder_cat(ks.subrange(1, ks.len() as int))
        }
    }
}

/// More fuel never changes a pre-order that some fuel already produces.
proof fn lemma_preorder_fuel_mono<T>(a: Arena<T>, r: int, f1: nat, f2: nat)
    requires
        a.preorder_fuel(r, f1) is Some,
        f1 <= f2,
    ensures
        a.preorder_fuel(r, f2) == a.preorder_fuel(r, f1),
    decreases f1, 0nat,
{
    lemma_forest_fuel_mono(a, a.child_seq(r), (f1 - 1) as nat, (f2 - 1) as nat);
}

proof fn lemma_forest_fuel_mono<T>(a: Arena<T>, ks: Seq<int>, f1: nat, f2: nat)
    requires
        a.forest_fuel(ks, f1) is Some,
        f1 <= f2,
    ensures
        a.forest_fuel(ks, f2) == a.forest_fuel(ks, f1),
    decreases f1, ks.len() + 1,
{
    if ks.len() == 0 {
    } else {
        lemma_preorder_fuel_mono(a, ks[0], f1, f2);
        lemma_forest_fuel_mono(a, ks.subrange(1, ks.len() as int), f1, f2);
    }
}

/// A forest that some fuel fully explores is the concatenation of its
/// members' pre-orders, each member being finite.
proof fn lemma_forest_unfold<T>(a: Arena<T>, ks: Seq<int>, g: nat)
    requires
        a.forest_fuel(ks, g) is Some,
    ensures
        forall|i: int| 0 <= i < ks.len() ==> #[trigger] a.finite_at(ks[i]),
        a.forest_fuel(ks, g)->Some_0 == a.preorder_cat(ks),
    decreases ks.len(),
{
    if ks.len() == 0 {
    } else {
        let tail = ks.subrange(1, ks.len() as int);
        assert(a.preorder_fuel(ks[0], g) is Some);
        assert(a.finite_at(ks[0]));
        let f0 = choose|fuel: nat| (#[trigger] a.preorder_fuel(ks[0], fuel)) is Some;
        if f0 <= g {
            lemma_preorder_fuel_mono(a, ks[0], f0, g);
        } else {
            lemma_preorder_fuel_mono(a, ks[0], g, f0);
        }
        assert(a.preorder(ks[0]) == a.preorder_fuel(ks[0], g)->Some_0);
        lemma_forest_unfold(a, tail, g);
        assert forall|i: int| 0 <= i < ks.len() implies #[trigger] a.finite_at(ks[i]) by {
            if i > 0 {
                assert(tail[i - 1] == ks[i]);
                assert(a.finite_at(tail[i - 1]));
            }
        }
    }
}

/// A finite subtree's pre-order starts at its root and continues with the
/// concatenated pre-orders of the children, which are finite in turn.
proof fn lemma_preorder_unfold<T>(a: Arena<T>, r: int)
    requires
        a.finite_at(r),
    ensures
        a.preorder(r).len() >= 1,
        a.preorder(r)[0] == r,
        a.preorder(r) == seq![r] + a.preorder_cat(a.child_seq(r)),
        forall|i: int|
            0 <= i < a.child_seq(r).len() ==> #[trigger] a.finite_at(a.child_seq(r)[i]),
{
    let f = choose|fuel: nat| (#[trigger] a.preorder_fuel(r, fuel)) is Some;
    assert(a.preorder(r) == a.preorder_fuel(r, f)->Some_0);
    lemma_forest_unfold(a, a.child_seq(r), (f - 1) as nat);
}

/// Each member's pre-order fits inside the forest concatenation.
proof fn lemma_cat_member_len<T>(a: Arena<T>, ks: Seq<int>, i: int)
    requires
        0 <= i < ks.len(),
    ensures
        a.preorder(ks[i]).len() <= a.preorder_cat(ks).len(),
    decreases ks.len(),
{
    let tail = ks.subrange(1, ks.len() as int);
    if i == 0 {
    } else {
        assert(tail[i - 1] == ks[i]);
        lemma_cat_member_len(a, tail, i - 1);
    }
}

/// Extending the explored prefix of a child list by one child appends that
/// child's pre-order.
proof fn lemma_cat_snoc<T>(a: Arena<T>, ks: Seq<int>, j: int)
    requires
        0 <= j < ks.len(),
    ensures
        a.preorder_cat(ks.take(j + 1)) == a.preorder_cat(ks.take(j)) + a.preorder(ks[j]),
    decreases j,
{
    if j == 0 {
        assert(ks.take(1).subrange(1, 1) =~= Seq::<int>::empty());
        assert(ks.take(0) =~= Seq::<int>::empty());
        assert(ks.take(1).len() == 1 && ks.take(1)[0] == ks[0]);
        assert(a.preorder_cat(ks.take(1)) == a.preorder(ks[0]) + a.preorder_cat(
            ks.take(1).subrange(1, 1),
        ));
        assert(a.preorder_cat(ks.take(1)) =~= a.preorder(ks[0]));
    } else {
        let s1 = ks.take(j + 1);
        let s0 = ks.take(j);
        let tail = ks.subrange(1, ks.len() as int);
        assert(s1.subrange(1, s1.len() as int) =~= tail.take(j));
        assert(s0.subrange(1, s0.len() as int) =~= tail.take(j - 1));
        lemma_cat_snoc(a, tail, j - 1);
        assert(tail[j - 1] == ks[j]);
        assert(a.preorder_cat(s1) == a.preorder(ks[0]) + a.preorder_cat(tail.take(j)));
        assert(a.preorder_cat(s0) == a.preorder(ks[0]) + a.preorder_cat(tail.take(j - 1)));
        assert(a.preorder_cat(s1) =~= a.preorder_cat(s0) + a.preorder(ks[j]));
    }
}

/// Appends the pre-order of the subtree under `n` to `out`.
fn push_preorder<T>(arena: &Arena<T>, n: NodeId, out: &mut Vec<NodeId>)
    requires
        arena.wf(),
        arena.valid(n),
        arena.finite_at(n.idx()),
    ensures
        ids_of(final(out)@) == ids_of(old(out)@) + arena.preorder(n.idx()),
        final(out)@.len() == old(out)@.len() + arena.preorder(n.idx()).len(),
        forall|k: int| 0 <= k < old(out)@.len() ==> #[trigger] final(out)@[k] == old(out)@[k],
        forall|k: int|
            old(out)@.len() <= k < final(out)@.len() ==> arena.valid(#[trigger] final(out)@[k]),
    decreases arena.preorder(n.idx()).len(),
{
    broadcast use lemma_ids_of;

    proof {
        lemma_preorder_unfold(*arena, n.idx());
    }
    let ghost base = ids_of(out@);
    let ghost start = out@;
    out.push(n);
    let ghost ks = arena.child_seq(n.idx());
    proof {
        assert(arena.chain_ok(n.idx()));
        assert(ids_of(out@) =~= base + seq![n.idx()]);
        assert(ks.take(0) =~= Seq::<int>::empty());
    }
    let mut cur = arena.nodes[n.index].first_child;
    let ghost mut j: int = 0;
    while cur.is_some()
        invariant
            arena.wf(),
            arena.valid(n),
            arena.finite_at(n.idx()),
            ks == arena.child_seq(n.idx()),
            0 <= j <= ks.len(),
            link(cur) == (if j < ks.len() { Some(ks[j]) } else { None::<int> }),
            ids_of(out@) == base + seq![n.idx()]
                + arena.preorder_cat(ks.take(j)),
            out@.len() >= start.len(),
            forall|k: int| 0 <= k < start.len() ==> #[trigger] out@[k] == start[k],
            forall|k: int| start.len() <= k < out@.len() ==> arena.valid(#[trigger] out@[k]),
        decreases ks.len() - j,
    {
        let c = cur.unwrap();
        proof {
            assert(arena.chain_ok(n.idx()));
            assert(c.idx() == ks[j]);
            assert(0 <= ks[j] < arena.n());
            lemma_preorder_unfold(*arena, n.idx());
            assert(arena.finite_at(ks[j]));
            lemma_cat_member_len(*arena, ks, j);
            assert(arena.preorder(ks[j]).len() < arena.preorder(n.idx()).len());
        }
        let ghost before = out@;
        push_preorder(arena, c, out);
        cur = arena.nodes[c.index].next_sibling;
        proof {
            lemma_cat_snoc(*arena, ks, j);
            j = j + 1;
            assert forall|k: int| start.len() <= k < out@.len() implies arena.valid(
                #[trigger] out@[k],
            ) by {
                if k < before.len() {
                    assert(out@[k] == before[k]);
                }
            }
        }
    }
    proof {
        assert(ks.take(ks.len() as int) =~= ks);
        assert(ids_of(out@)
            =~= base + arena.preorder(n.idx()));
    }
}

impl NodeId {
    /// The nodes of the subtree under `self` (including `self`), in
    /// pre-order. Requires the subtree to be a finite tree, which every
    /// edit sequence free of cycle-creating misuse maintains.
    pub fn descendants<T>(self, arena: &Arena<T>) -> (r: Vec<NodeId>)
        requires
            arena.wf(),
            arena.valid(self),
            arena.finite_at(self.idx()),
        ensures
            ids_of(r@) == arena.preorder(self.idx()),
            forall|k: int| 0 <= k < r@.len() ==> arena.valid(#[trigger] r@[k]),
    {
        broadcast use lemma_ids_of;

        let mut out: Vec<NodeId> = Vec::new();
        push_preorder(arena, self, &mut out);
        proof {
            assert(ids_of(out@)
                =~= ids_of(Seq::<NodeId>::empty())
                + arena.preorder(self.idx()));
            assert(ids_of(Seq::<NodeId>::empty())
                =~= Seq::<int>::empty());
        }
        out
    }
}

} // verus!

verus! {

impl<T> Arena<T> {
    /// `n` and its preceding siblings, nearest first.
    pub open spec fn preceding_of(self, n: int) -> Seq<int> {
        match self.par(n) {
            Some(p) => {
                let ks = self.child_seq(p);
                ks.take(ks.index_of(n) + 1).reverse()
            },
            None => seq![n],
        }
    }

    /// `n` and its following siblings, in chain order.
    pub open spec fn following_of(self, n: int) -> Seq<int> {
        match self.par(n) {
            Some(p) => {
                let ks = self.child_seq(p);
                ks.skip(ks.index_of(n))
            },
            None => seq![n],
        }
    }
}

impl NodeId {
    /// The children of `self`, in order.
    pub fn children<T>(self, arena: &Arena<T>) -> (r: Vec<NodeId>)
        requires
            arena.wf(),
            arena.valid(self),
        ensures
            ids_of(r@) == arena.child_seq(self.idx()),
            forall|k: int| 0 <= k < r@.len() ==> arena.valid(#[trigger] r@[k]),
    {
        broadcast use lemma_ids_of;

        let ghost ks = arena.child_seq(self.idx());
        let mut out: Vec<NodeId> = Vec::new();
        proof {
            assert(arena.chain_ok(self.idx()));
            assert(ids_of(out@) =~= ks.take(0));
        }
        let mut cur = arena.nodes[self.index].first_child;
        let ghost mut j: int = 0;
        while cur.is_some()
            invariant
                arena.wf(),
                arena.valid(self),
                ks == arena.child_seq(self.idx()),
                0 <= j <= ks.len(),
                link(cur) == (if j < ks.len() { Some(ks[j]) } else { None::<int> }),
                ids_of(out@) == ks.take(j),
                forall|k: int| 0 <= k < out@.len() ==> arena.valid(#[trigger] out@[k]),
            decreases ks.len() - j,
        {
            let c = cur.unwrap();
            proof {
                assert(arena.chain_ok(self.idx()));
                assert(c.idx() == ks[j]);
            }
            let ghost before = out@;
            out.push(c);
            cur = arena.nodes[c.index].next_sibling;
            proof {
                j = j + 1;
                assert(out@ == before.push(c));
                assert(ids_of(before) == ks.take(j - 1));
                assert(0 <= j - 1 <= ks.len());
                assert(ks.take(j - 1).len() == j - 1);
                assert(ids_of(before).len() == before.len());
                assert(out@.len() == j);
                assert forall|i: int| 0 <= i < j implies ids_of(out@)[i] == ks.take(j)[i] by {
                    if i < j - 1 {
                        assert(ids_of(out@)[i] == out@[i].idx());
                        assert(out@[i] == before[i]);
                        assert(ids_of(before)[i] == before[i].idx());
                        assert(ks.take(j - 1)[i] == ks[i]);
                    } else {
                        assert(out@[i] == c);
                    }
                }
                assert(ids_of(out@) =~= ks.take(j));
            }
        }
        proof {
            assert(ks.take(ks.len() as int) =~= ks);
        }
        out
    }

    /// The children of `self`, last child first.
    pub fn reverse_children<T>(self, arena: &Arena<T>) -> (r: Vec<NodeId>)
        requires
            arena.wf(),
            arena.valid(self),
        ensures
            ids_of(r@) == arena.child_seq(self.idx()).reverse(),
            forall|k: int| 0 <= k < r@.len() ==> arena.valid(#[trigger] r@[k]),
    {
        broadcast use lemma_ids_of;

        let ghost ks = arena.child_seq(self.idx());
        let mut out: Vec<NodeId> = Vec::new();
        proof {
            assert(arena.chain_ok(self.idx()));
            assert(ids_of(out@)
                =~= ks.subrange(ks.len() as int, ks.len() as int).reverse());
        }
        let mut cur = arena.nodes[self.index].last_child;
        let ghost mut j: int = 0;
        while cur.is_some()
            invariant
                arena.wf(),
                arena.valid(self),
                ks == arena.child_seq(self.idx()),
                0 <= j <= ks.len(),
                link(cur) == (if j < ks.len() { Some(ks[ks.len() - 1 - j]) } else { None::<int> }),
                ids_of(out@)
                    == ks.subrange(ks.len() - j, ks.len() as int).reverse(),
                forall|k: int| 0 <= k < out@.len() ==> arena.valid(#[trigger] out@[k]),
            decreases ks.len() - j,
        {
            let c = cur.unwrap();
            proof {
                assert(arena.chain_ok(self.idx()));
                assert(c.idx() == ks[ks.len() - 1 - j]);
            }
            let ghost before = out@;
            out.push(c);
            cur = arena.nodes[c.index].previous_sibling;
            proof {
                j = j + 1;
                let olds = ks.subrange(ks.len() - (j - 1), ks.len() as int);
                let news = ks.subrange(ks.len() - j, ks.len() as int);
                assert(out@ == before.push(c));
                assert(ids_of(before) == olds.reverse());
                assert(olds.len() == j - 1 && news.len() == j);
                assert(olds.reverse().len() == j - 1 && news.reverse().len() == j);
                assert(ids_of(before).len() == before.len());
                assert(out@.len() == j);
                assert forall|i: int| 0 <= i < j implies ids_of(out@)[i] == news.reverse()[i] by {
                    assert(news.reverse()[i] == news[j - 1 - i]);
                    assert(news[j - 1 - i] == ks[ks.len() - 1 - i]);
                    if i < j - 1 {
                        assert(ids_of(out@)[i] == before[i].idx());
                        assert(before[i].idx() == ids_of(before)[i]);
                        assert(olds.reverse()[i] == olds[j - 2 - i]);
                        assert(olds[j - 2 - i] == ks[ks.len() - 1 - i]);
                    } else {
                        assert(out@[i] == c);
                    }
                }
                assert(ids_of(out@) =~= news.reverse());
            }
        }
        proof {
            assert(ks.subrange(0, ks.len() as int) =~= ks);
        }
        out
    }

    /// `self` and its preceding siblings, nearest first.
    pub fn preceding_siblings<T>(self, arena: &Arena<T>) -> (r: Vec<NodeId>)
        requires
            arena.wf(),
            arena.valid(self),
        ensures
            ids_of(r@) == arena.preceding_of(self.idx()),
            forall|k: int| 0 <= k < r@.len() ==> arena.valid(#[trigger] r@[k]),
    {
        broadcast use lemma_ids_of;

        let mut out: Vec<NodeId> = Vec::new();
        out.push(self);
        if arena.nodes[self.index].parent.is_none() {
            proof {
                assert(ids_of(out@) =~= seq![self.idx()]);
            }
            return out;
        }
        let ghost p = arena.par(self.idx())->Some_0;
        let ghost ks = arena.child_seq(p);
        let ghost j0 = ks.index_of(self.idx());
        proof {
            lemma_member(*arena, self.idx());
            assert(ids_of(out@)
                =~= ks.subrange(j0, j0 + 1).reverse());
        }
        let mut cur = arena.nodes[self.index].previous_sibling;
        let ghost mut i: int = 1;
        while cur.is_some()
            invariant
                arena.wf(),
                arena.valid(self),
                arena.par(self.idx()) == Some(p),
                0 <= p < arena.n(),
                ks == arena.child_seq(p),
                j0 == ks.index_of(self.idx()),
                0 <= j0 < ks.len(),
                1 <= i <= j0 + 1,
                link(cur) == (if i <= j0 { Some(ks[j0 - i]) } else { None::<int> }),
                ids_of(out@)
                    == ks.subrange(j0 - i + 1, j0 + 1).reverse(),
                forall|k: int| 0 <= k < out@.len() ==> arena.valid(#[trigger] out@[k]),
            decreases j0 + 1 - i,
        {
            let c = cur.unwrap();
            proof {
                assert(arena.chain_ok(p));
                assert(c.idx() == ks[j0 - i]);
            }
            let ghost before = out@;
            out.push(c);
            cur = arena.nodes[c.index].previous_sibling;
            proof {
                i = i + 1;
                let olds = ks.subrange(j0 - i + 2, j0 + 1);
                let news = ks.subrange(j0 - i + 1, j0 + 1);
                assert(out@ == before.push(c));
                assert(ids_of(before) == olds.reverse());
                assert(olds.len() == i - 1 && news.len() == i);
                assert(olds.reverse().len() == i - 1 && news.reverse().len() == i);
                assert(ids_of(before).len() == before.len());
                assert(out@.len() == i);
                assert forall|k: int| 0 <= k < i implies ids_of(out@)[k] == news.reverse()[k] by {
                    assert(news.reverse()[k] == news[i - 1 - k]);
                    assert(news[i - 1 - k] == ks[j0 - k]);
                    if k < i - 1 {
                        assert(ids_of(out@)[k] == before[k].idx());
                        assert(before[k].idx() == ids_of(before)[k]);
                        assert(olds.reverse()[k] == olds[i - 2 - k]);
                        assert(olds[i - 2 - k] == ks[j0 - k]);
                    } else {
                        assert(out@[k] == c);
                    }
                }
                assert(ids_of(out@) =~= news.reverse());
            }
        }
        proof {
            assert(ks.subrange(0, j0 + 1) =~= ks.take(j0 + 1));
        }
        out
    }

    /// `self` and its following siblings, in chain order.
    pub fn following_siblings<T>(self, arena: &Arena<T>) -> (r: Vec<NodeId>)
        requires
            arena.wf(),
            arena.valid(self),
        ensures
            ids_of(r@) == arena.following_of(self.idx()),
            forall|k: int| 0 <= k < r@.len() ==> arena.valid(#[trigger] r@[k]),
    {
        broadcast use lemma_ids_of;

        let mut out: Vec<NodeId> = Vec::new();
        out.push(self);
        if arena.nodes[self.index].parent.is_none() {
            proof {
                assert(ids_of(out@) =~= seq![self.idx()]);
            }
            return out;
        }
        let ghost p = arena.par(self.idx())->Some_0;
        let ghost ks = arena.child_seq(p);
        let ghost j0 = ks.index_of(self.idx());
        proof {
            lemma_member(*arena, self.idx());
            assert(ids_of(out@)
                =~= ks.subrange(j0, j0 + 1));
        }
        let mut cur = arena.nodes[self.index].next_sibling;
        let ghost mut i: int = 1;
        while cur.is_some()
            invariant
                arena.wf(),
                arena.valid(self),
                arena.par(self.idx()) == Some(p),
                0 <= p < arena.n(),
                ks == arena.child_seq(p),
                j0 == ks.index_of(self.idx()),
                0 <= j0 < ks.len(),
                1 <= i <= ks.len() - j0,
                link(cur) == (if j0 + i < ks.len() { Some(ks[j0 + i]) } else { None::<int> }),
                ids_of(out@) == ks.subrange(j0, j0 + i),
                forall|k: int| 0 <= k < out@.len() ==> arena.valid(#[trigger] out@[k]),
            decreases ks.len() - j0 - i,
        {
            let c = cur.unwrap();
            proof {
                assert(arena.chain_ok(p));
                assert(c.idx() == ks[j0 + i]);
            }
            let ghost before = out@;
            out.push(c);
            cur = arena.nodes[c.index].next_sibling;
            proof {
                i = i + 1;
                let olds = ks.subrange(j0, j0 + i - 1);
                let news = ks.subrange(j0, j0 + i);
                assert(out@ == before.push(c));
                assert(ids_of(before) == olds);
                assert(olds.len() == i - 1 && news.len() == i);
                assert(ids_of(before).len() == before.len());
                assert(out@.len() == i);
                assert forall|k: int| 0 <= k < i implies ids_of(out@)[k] == news[k] by {
                    assert(news[k] == ks[j0 + k]);
                    if k < i - 1 {
                        assert(ids_of(out@)[k] == before[k].idx());
                        assert(before[k].idx() == ids_of(before)[k]);
                        assert(olds[k] == ks[j0 + k]);
                    } else {
                        assert(out@[k] == c);
                    }
                }
                assert(ids_of(out@) =~= news);
            }
        }
        proof {
            assert(ks.subrange(j0, ks.len() as int) =~= ks.skip(j0));
        }
        out
    }
}

} // verus!

verus! {

impl<T> Arena<T> {
    /// `s` walks parent links from `n` (inclusive) up to a parentless root.
    pub closed spec fn is_root_path(self, n: int, s: Seq<int>) -> bool {
        &&& s.len() >= 1
        &&& s[0] == n
        &&& (forall|i: int| 0 <= i < s.len() - 1 ==> self.par(#[trigger] s[i]) == Some(s[i + 1]))
        &&& self.par(s[s.len() - 1]) is None
    }

    /// The parent chain from `n` reaches a root; false only on a parent-link
    /// cycle, which edits free of cycle-creating misuse never make.
    pub closed spec fn rooted(self, n: int) -> bool {
        exists|s: Seq<int>| self.is_root_path(n, s)
    }

    /// The unique parent chain from `n` (inclusive) to its root.
    pub closed spec fn root_path(self, n: int) -> Seq<int> {
        choose|s: Seq<int>| self.is_root_path(n, s)
    }
}

/// Parent links are deterministic, so the root path is unique.
proof fn lemma_root_path_unique<T>(a: Arena<T>, n: int, s: Seq<int>, t: Seq<int>)
    requires
        a.is_root_path(n, s),
        a.is_root_path(n, t),
    ensures
        s == t,
    decreases s.len(),
{
    if s.len() == 1 {
        assert(a.par(n) is None);
        if t.len() > 1 {
            assert(a.par(t[0]) == Some(t[1]));
            assert(false);
        }
        assert(s =~= t);
    } else {
        assert(a.par(s[0]) == Some(s[1]));
        if t.len() == 1 {
            assert(false);
        }
        assert(a.par(t[0]) == Some(t[1]));
        assert(s[1] == t[1]);
        let s2 = s.subrange(1, s.len() as int);
        let t2 = t.subrange(1, t.len() as int);
        assert(a.is_root_path(s[1], s2)) by {
            assert forall|i: int| 0 <= i < s2.len() - 1 implies a.par(#[trigger] s2[i])
                == Some(s2[i + 1]) by {
                assert(s2[i] == s[i + 1] && s2[i + 1] == s[i + 2]);
            }
            assert(s2[s2.len() - 1] == s[s.len() - 1]);
        }
        assert(a.is_root_path(t[1], t2)) by {
            assert forall|i: int| 0 <= i < t2.len() - 1 implies a.par(#[trigger] t2[i])
                == Some(t2[i + 1]) by {
                assert(t2[i] == t[i + 1] && t2[i + 1] == t[i + 2]);
            }
            assert(t2[t2.len() - 1] == t[t.len() - 1]);
        }
        lemma_root_path_unique(a, s[1], s2, t2);
        assert forall|i: int| 0 <= i < s.len() implies s[i] == t[i] by {
            if i > 0 {
                assert(s2[i - 1] == s[i] && t2[i - 1] == t[i]);
            }
        }
        assert(s =~= t);
    }
}

impl NodeId {
    /// `self` and its ancestors, nearest first, ending at the root.
    /// The parent chain must reach a root, which holds in the absence of
    /// cycle-creating misuse.
    pub fn ancestors<T>(self, arena: &Arena<T>) -> (r: Vec<NodeId>)
        requires
            arena.wf(),
            arena.valid(self),
            arena.rooted(self.idx()),
        ensures
            ids_of(r@) == arena.root_path(self.idx()),
            forall|k: int| 0 <= k < r@.len() ==> arena.valid(#[trigger] r@[k]),
    {
        broadcast use lemma_ids_of;

        let ghost s = arena.root_path(self.idx());
        proof {
            assert(arena.is_root_path(self.idx(), s));
        }
        let mut out: Vec<NodeId> = Vec::new();
        let mut cur: Option<NodeId> = Some(self);
        let ghost mut i: int = 0;
        proof {
            assert(ids_of(out@) =~= s.take(0));
        }
        while cur.is_some()
            invariant
                arena.wf(),
                arena.is_root_path(self.idx(), s),
                0 <= i <= s.len(),
                link(cur) == (if i < s.len() { Some(s[i]) } else { None::<int> }),
                i < s.len() ==> 0 <= s[i] < arena.n(),
                ids_of(out@) == s.take(i),
                forall|k: int| 0 <= k < out@.len() ==> arena.valid(#[trigger] out@[k]),
            decreases s.len() - i,
        {
            let c = cur.unwrap();
            proof {
                assert(c.idx() == s[i]);
                assert(arena.node_ok(s[i]));
            }
            let ghost before = out@;
            out.push(c);
            cur = arena.nodes[c.index].parent;
            proof {
                i = i + 1;
                if i < s.len() {
                    assert(arena.par(s[i - 1]) == Some(s[i]));
                } else {
                    assert(arena.par(s[i - 1]) is None);
                }
                assert(out@ == before.push(c));
                assert(ids_of(before) == s.take(i - 1));
                assert(s.take(i - 1).len() == i - 1);
                assert(ids_of(before).len() == before.len());
                assert(out@.len() == i);
                assert forall|k: int| 0 <= k < i implies ids_of(out@)[k] == s.take(i)[k] by {
                    if k < i - 1 {
                        assert(ids_of(out@)[k] == before[k].idx());
                        assert(before[k].idx() == ids_of(before)[k]);
                        assert(s.take(i - 1)[k] == s[k]);
                    } else {
                        assert(out@[k] == c);
                    }
                }
                assert(ids_of(out@) =~= s.take(i));
            }
        }
        proof {
            assert(i == s.len());
            assert(s.take(s.len() as int) =~= s);
        }
        out
    }
}

/// One bracket of the pre/post-order walk: `Start` on first entering a node,
/// `End` once its whole subtree has been visited.
#[derive(Debug, Clone, Copy, PartialEq, Eq, Structural)]
pub enum NodeEdge<N> {
    Start(N),
    End(N),
}

/// The iterative pre/post-order walk over one subtree, as an explicit state
/// machine: the state is the next edge to yield, or `None` once the walk has
/// closed the bracket on its root.
pub struct Traverse {
    root: NodeId,
    next_edge: Option<NodeEdge<NodeId>>,
}

impl<T> Arena<T> {
    /// The transition table of the walk: from `Start(n)` descend to the
    /// first child if any, else close `n`; from `End(n)` stop at the root,
    /// else advance to the next sibling if any, else close the parent.
    pub closed spec fn edge_step(self, root: NodeId, e: NodeEdge<NodeId>) -> Option<
        NodeEdge<NodeId>,
    > {
        match e {
            NodeEdge::Start(nid) => match self.fst(nid.idx()) {
                Some(c) => Some(NodeEdge::Start(NodeId { index: c as usize })),
                None => Some(NodeEdge::End(nid)),
            },
            NodeEdge::End(nid) => if nid == root {
                None
            } else {
                match self.nxt(nid.idx()) {
                    Some(sib) => Some(NodeEdge::Start(NodeId { index: sib as usize })),
                    None => match self.par(nid.idx()) {
                        Some(p) => Some(NodeEdge::End(NodeId { index: p as usize })),
                        None => None,
                    },
                }
            },
        }
    }
}

impl Traverse {
    /// The root this walk was started on.
    pub closed spec fn spec_root(self) -> NodeId {
        self.root
    }

    /// The edge the next call of `next` will yield.
    pub closed spec fn spec_next_edge(self) -> Option<NodeEdge<NodeId>> {
        self.next_edge
    }

    /// The stored state names a slot of `arena`.
    pub closed spec fn edge_ok<T>(self, arena: Arena<T>) -> bool {
        match self.next_edge {
            Some(NodeEdge::Start(nid)) => arena.valid(nid),
            Some(NodeEdge::End(nid)) => arena.valid(nid),
            None => true,
        }
    }

    /// Yields the pending edge and advances the state by exactly one step of
    /// the transition table.
    pub fn next<T>(&mut self, arena: &Arena<T>) -> (r: Option<NodeEdge<NodeId>>)
        requires
            arena.wf(),
            old(self).edge_ok(*arena),
        ensures
            r == old(self).spec_next_edge(),
            final(self).spec_root() == old(self).spec_root(),
            final(self).spec_next_edge() == (match old(self).spec_next_edge() {
                Some(e) => arena.edge_step(old(self).spec_root(), e),
                None => None::<NodeEdge<NodeId>>,
            }),
            final(self).edge_ok(*arena),
    {
        let edge = self.next_edge;
        if let Some(e) = edge {
            self.next_edge = match e {
                NodeEdge::Start(nid) => {
                    proof {
                        assert(arena.chain_ok(nid.idx()));
                    }
                    match arena.nodes[nid.index].first_child {
                        Some(child) => Some(NodeEdge::Start(child)),
                        None => Some(NodeEdge::End(nid)),
                    }
                },
                NodeEdge::End(nid) => {
                    if nid == self.root {
                        None
                    } else {
                        proof {
                            assert(arena.node_ok(nid.idx()));
                            if arena.par(nid.idx()) is Some {
                                lemma_member(*arena, nid.idx());
                            }
                        }
                        match arena.nodes[nid.index].next_sibling {
                            Some(sib) => Some(NodeEdge::Start(sib)),
                            None => match arena.nodes[nid.index].parent {
                                Some(p) => Some(NodeEdge::End(p)),
                                None => None,
                            },
                        }
                    }
                },
            };
            Some(e)
        } else {
            None
        }
    }
}

/// The slot of the first entry of `s` whose payload equals `data`, scanning
/// left to right; `None` when none matches.
pub closed spec fn first_hit<T: PartialEq>(a: Arena<T>, s: Seq<int>, data: T) -> Option<int>
    decreases s.len(),
{
    if s.len() == 0 {
        None
    } else if a.val(s[0]).eq_spec(&data) {
        Some(s[0])
    } else {
        first_hit(a, s.subrange(1, s.len() as int), data)
    }
}

impl NodeId {
    /// Starts the pre/post-order walk of the subtree under `self`; the first
    /// edge yielded is `Start(self)`.
    pub fn traverse<T>(self, arena: &Arena<T>) -> (r: Traverse)
        requires
            arena.valid(self),
        ensures
            r.spec_root() == self,
            r.spec_next_edge() == Some(NodeEdge::Start(self)),
            r.edge_ok(*arena),
    {
        Traverse { root: self, next_edge: Some(NodeEdge::Start(self)) }
    }

    /// The first node in pre-order of the subtree under `self` whose payload
    /// equals `data`, or `None` when no payload matches.
    pub fn find_node<T: Ord>(self, arena: &Arena<T>, data: T) -> (r: Option<NodeId>)
        requires
            arena.wf(),
            arena.valid(self),
            arena.finite_at(self.idx()),
            T::obeys_eq_spec(),
        ensures
            (match r {
                Some(id) => Some(id.idx()),
                None => None::<int>,
            }) == first_hit(*arena, arena.preorder(self.idx()), data),
    {
        broadcast use lemma_ids_of;

        let ghost s = arena.preorder(self.idx());
        let nodes = self.descendants(arena);
        proof {
            assert(s.skip(0) =~= s);
        }
        let mut k: usize = 0;
        while k < nodes.len()
            invariant
                arena.wf(),
                ids_of(nodes@) == s,
                forall|x: int| 0 <= x < nodes@.len() ==> arena.valid(#[trigger] nodes@[x]),
                0 <= k <= nodes@.len(),
                s == arena.preorder(self.idx()),
                first_hit(*arena, s, data) == first_hit(*arena, s.skip(k as int), data),
                T::obeys_eq_spec(),
            decreases nodes@.len() - k,
        {
            let c = nodes[k];
            proof {
                assert(c.idx() == s[k as int]);
                assert(s.skip(k as int)[0] == s[k as int]);
            }
            if arena.nodes[c.index].data == data {
                proof {
                    assert(first_hit(*arena, s.skip(k as int), data) == Some(s[k as int]));
                }
                return Some(c);
            }
            k = k + 1;
            proof {
                assert(s.skip(k as int - 1).subrange(1, s.skip(k as int - 1).len() as int)
                    =~= s.skip(k as int));
            }
        }
        proof {
            assert(s.skip(nodes@.len() as int).len() == 0);
        }
        None
    }
}

} // verus!

verus! {

/// In a well-formed arena the concrete links are fully determined by the
/// abstract model (parents and child sequences).
proof fn lemma_links_determined<T>(a: Arena<T>, b: Arena<T>)
    requires
        a.wf(),
        b.wf(),
        a.n() == b.n(),
        forall|i: int| 0 <= i < a.n() ==> #[trigger] a.par(i) == b.par(i),
        forall|i: int| 0 <= i < a.n() ==> #[trigger] a.child_seq(i) == b.child_seq(i),
    ensures
        forall|i: int|
            0 <= i < a.n() ==> #[trigger] a.fst(i) == b.fst(i) && a.lst(i) == b.lst(i) && a.prv(i)
                == b.prv(i) && a.nxt(i) == b.nxt(i),
{
    assert forall|i: int|
        0 <= i < a.n() implies #[trigger] a.fst(i) == b.fst(i) && a.lst(i) == b.lst(i) && a.prv(i)
        == b.prv(i) && a.nxt(i) == b.nxt(i) by {
        assert(a.chain_ok(i));
        assert(b.chain_ok(i));
        assert(a.node_ok(i));
        assert(b.node_ok(i));
        if a.par(i) is Some {
            lemma_member(a, i);
            lemma_member(b, i);
        }
    }
}

/// Detach is idempotent: a second detach of the same node finds it already
/// unhooked and leaves every observable of the arena unchanged.
pub proof fn lemma_detach_idempotent<T>(a0: Arena<T>, a1: Arena<T>, a2: Arena<T>, n: int)
    requires
        a0.wf(),
        0 <= n < a0.n(),
        detach_rel(a0, a1, n),
        detach_rel(a1, a2, n),
    ensures
        a2.n() == a1.n(),
        forall|i: int| 0 <= i < a1.n() ==> #[trigger] a2.val(i) == a1.val(i),
        forall|i: int| 0 <= i < a1.n() ==> #[trigger] a2.par(i) == a1.par(i),
        forall|i: int| 0 <= i < a1.n() ==> #[trigger] a2.child_seq(i) == a1.child_seq(i),
        forall|i: int|
            0 <= i < a1.n() ==> #[trigger] a2.fst(i) == a1.fst(i) && a2.lst(i) == a1.lst(i)
                && a2.prv(i) == a1.prv(i) && a2.nxt(i) == a1.nxt(i),
{
    assert forall|i: int| 0 <= i < a1.n() implies #[trigger] a2.par(i) == a1.par(i) by {
        if i != n {
        } else {
            assert(a1.par(n) is None && a2.par(n) is None);
        }
    }
    assert forall|i: int| 0 <= i < a1.n() implies #[trigger] a2.child_seq(i) == a1.child_seq(i) by {
        assert(a2.child_seq(i) == a1.child_seq_less(i, n));
        assert(a1.par(n) is None);
    }
    lemma_links_determined(a1, a2);
}

/// The forward and backward child walks of one parent mirror each other:
/// what `children` yields is the reverse of what `reverse_children` yields.
pub proof fn lemma_children_mirror<T>(a: Arena<T>, p: int, cs: Seq<int>, rcs: Seq<int>)
    requires
        a.wf(),
        0 <= p < a.n(),
        cs == a.child_seq(p),
        rcs == a.child_seq(p).reverse(),
    ensures
        cs == rcs.reverse(),
        rcs == cs.reverse(),
{
    assert(rcs.reverse().len() == cs.len());
    assert(cs =~= rcs.reverse());
}

} // verus!

verus! {

/// The shape of the pre-order walk: a finite subtree's walk opens at its
/// root and continues with the children's walks, in sibling order, each
/// child's subtree being finite in turn.
pub proof fn lemma_preorder_structure<T>(a: Arena<T>, r: int)
    requires
        a.wf(),
        0 <= r < a.n(),
        a.finite_at(r),
    ensures
        a.preorder(r).len() >= 1,
        a.preorder(r)[0] == r,
        a.preorder(r) == seq![r] + a.preorder_cat(a.child_seq(r)),
        forall|i: int|
            0 <= i < a.child_seq(r).len() ==> #[trigger] a.finite_at(a.child_seq(r)[i]),
{
    lemma_preorder_unfold(a, r);
}

} // verus!

verus! {

impl<T> Arena<T> {
    /// The slot reached from `x` by following `k` parent links, or `None`
    /// when the chain leaves the store or ends early.
    pub closed spec fn up(self, x: int, k: nat) -> Option<int>
        decreases k,
    {
        if !(0 <= x < self.n()) {
            None
        } else if k == 0 {
            Some(x)
        } else {
            match self.par(x) {
                Some(p) => self.up(p, (k - 1) as nat),
                None => None,
            }
        }
    }
}

/// Parent chains compose step-wise.
proof fn lemma_up_compose<T>(a: Arena<T>, x: int, k1: nat, k2: nat)
    ensures
        a.up(x, (k1 + k2) as nat) == (match a.up(x, k1) {
            Some(y) => a.up(y, k2),
            None => None::<int>,
        }),
    decreases k1,
{
    if 0 <= x < a.n() && k1 > 0 {
        match a.par(x) {
            Some(p) => {
                lemma_up_compose(a, p, (k1 - 1) as nat, k2);
            },
            None => {},
        }
    }
}

/// One parent step of the chain is the parent link itself.
proof fn lemma_up_step<T>(a: Arena<T>, x: int)
    requires
        a.wf(),
        0 <= x < a.n(),
    ensures
        a.up(x, 1) == a.par(x),
{
    assert(a.node_ok(x));
    match a.par(x) {
        Some(p) => {
            assert(0 <= p < a.n());
            assert(a.up(p, 0) == Some(p));
        },
        None => {},
    }
}

/// A reached slot lies in the store.
proof fn lemma_up_in_range<T>(a: Arena<T>, x: int, k: nat)
    requires
        a.up(x, k) is Some,
    ensures
        0 <= a.up(x, k)->Some_0 < a.n(),
    decreases k,
{
    if k > 0 {
        match a.par(x) {
            Some(p) => {
                lemma_up_in_range(a, p, (k - 1) as nat);
            },
            None => {},
        }
    }
}

/// Every member of an explored forest carries enough fuel of its own.
proof fn lemma_forest_member_fuel<T>(a: Arena<T>, ks: Seq<int>, fuel: nat, i: int)
    requires
        a.forest_fuel(ks, fuel) is Some,
        0 <= i < ks.len(),
    ensures
        a.preorder_fuel(ks[i], fuel) is Some,
    decreases ks.len(),
{
    if i > 0 {
        let tail = ks.subrange(1, ks.len() as int);
        lemma_forest_member_fuel(a, tail, fuel, i - 1);
        assert(tail[i - 1] == ks[i]);
    }
}

/// No finite fuel explores a slot sitting on a parent-link cycle.
proof fn lemma_cycle_no_fuel<T>(a: Arena<T>, x: int, m: nat, fuel: nat)
    requires
        a.wf(),
        0 <= x < a.n(),
        m >= 1,
        a.up(x, m) == Some(x),
    ensures
        a.preorder_fuel(x, fuel) is None,
    decreases fuel,
{
    if a.preorder_fuel(x, fuel) is Some {
        let y = a.up(x, (m - 1) as nat);
        assert(y is Some) by {
            if y is None {
                lemma_up_compose(a, x, (m - 1) as nat, 1);
            }
        }
        let yv = y->Some_0;
        lemma_up_in_range(a, x, (m - 1) as nat);
        assert(a.up(yv, 1) == Some(x)) by {
            lemma_up_compose(a, x, (m - 1) as nat, 1);
        }
        lemma_up_step(a, yv);
        assert(a.par(yv) == Some(x));
        assert(a.node_ok(yv));
        assert(a.child_seq(x).contains(yv));
        let j = choose|j: int| 0 <= j < a.child_seq(x).len() && a.child_seq(x)[j] == yv;
        assert(fuel >= 1);
        lemma_forest_member_fuel(a, a.child_seq(x), (fuel - 1) as nat, j);
        // y sits on the same cycle, one step further along
        assert(a.up(yv, m) == Some(yv)) by {
            lemma_up_step(a, yv);
            lemma_up_compose(a, yv, 1, (m - 1) as nat);
            assert(a.up(x, (m - 1) as nat) == Some(yv));
        }
        lemma_cycle_no_fuel(a, yv, m, (fuel - 1) as nat);
        assert(false);
    }
}

/// The explored forest under one parent repeats no slot, stays in the
/// store, and each of its members reaches one of the listed roots by
/// parent links.
proof fn lemma_forest_nodup<T>(a: Arena<T>, ks: Seq<int>, fuel: nat, p: int)
    requires
        a.wf(),
        a.forest_fuel(ks, fuel) is Some,
        0 <= p < a.n(),
        forall|i: int| 0 <= i < ks.len() ==> 0 <= #[trigger] ks[i] < a.n() && a.par(ks[i]) == Some(p),
        ks.no_duplicates(),
    ensures
        ({
            let s = a.forest_fuel(ks, fuel)->Some_0;
            &&& s.no_duplicates()
            &&& forall|e: int| #[trigger] s.contains(e) ==> 0 <= e < a.n()
            &&& forall|e: int| #[trigger] s.contains(e) ==> exists|i: int, k: nat|
                0 <= i < ks.len() && a.up(e, k) == Some(ks[i])
        }),
    decreases fuel, ks.len() + 1,
{
    if ks.len() == 0 {
    } else {
        let h = ks[0];
        let kt = ks.subrange(1, ks.len() as int);
        let s1 = a.preorder_fuel(h, fuel)->Some_0;
        let s2 = a.forest_fuel(kt, fuel)->Some_0;
        let s = a.forest_fuel(ks, fuel)->Some_0;
        assert(s == s1 + s2);
        lemma_pre_nodup(a, h, fuel);
        lemma_forest_nodup(a, kt, fuel, p);
        // the head's subtree and the rest of the forest share no slot
        assert forall|e: int| !(s1.contains(e) && s2.contains(e)) by {
            if s1.contains(e) && s2.contains(e) {
                let k1 = choose|k: nat| a.up(e, k) == Some(h);
                let (i2, k2): (int, nat) = choose|i2: int, k2: nat|
                    0 <= i2 < kt.len() && a.up(e, k2) == Some(kt[i2]);
                let c = kt[i2];
                assert(c == ks[i2 + 1] && c != h);
                assert(a.par(c) == Some(p) && a.par(h) == Some(p));
                if k1 == k2 {
                    assert(false);
                } else if k1 < k2 {
                    lemma_up_compose(a, e, k1, (k2 - k1) as nat);
                    assert(a.up(h, (k2 - k1) as nat) == Some(c));
                    lemma_cycle_through_sibling(a, h, c, p, (k2 - k1) as nat, fuel, ks, i2 + 1);
                } else {
                    lemma_up_compose(a, e, k2, (k1 - k2) as nat);
                    assert(a.up(c, (k1 - k2) as nat) == Some(h));
                    lemma_cycle_through_sibling(a, c, h, p, (k1 - k2) as nat, fuel, ks, 0);
                }
            }
        }
        assert(s.no_duplicates()) by {
            assert forall|x: int, y: int| 0 <= x < y < s.len() implies s[x] != s[y] by {
                if x < s1.len() && y >= s1.len() {
                    assert(s[x] == s1[x] && s[y] == s2[y - s1.len()]);
                    if s[x] == s[y] {
                        assert(s1.contains(s[x]) && s2.contains(s[x]));
                    }
                } else if y < s1.len() {
                    assert(s[x] == s1[x] && s[y] == s1[y]);
                } else {
                    assert(s[x] == s2[x - s1.len()] && s[y] == s2[y - s1.len()]);
                }
            }
        }
        assert forall|e: int| #[trigger] s.contains(e) implies 0 <= e < a.n() && (exists|
            i: int,
            k: nat,
        |
            0 <= i < ks.len() && a.up(e, k) == Some(ks[i])) by {
            let w = choose|w: int| 0 <= w < s.len() && s[w] == e;
            if w < s1.len() {
                assert(s1.contains(e));
                let k = choose|k: nat| a.up(e, k) == Some(h);
                assert(0 <= 0 < ks.len() && a.up(e, k) == Some(ks[0]));
            } else {
                assert(s2.contains(e));
                let (i2, k2): (int, nat) = choose|i2: int, k2: nat|
                    0 <= i2 < kt.len() && a.up(e, k2) == Some(kt[i2]);
                assert(kt[i2] == ks[i2 + 1]);
                assert(0 <= i2 + 1 < ks.len() && a.up(e, k2) == Some(ks[i2 + 1]));
            }
        }
    }
}

/// Two distinct children of one parent cannot sit in each other's subtree:
/// reaching `c` from its sibling `h` by parent links closes a cycle on `c`,
/// which its fuel refutes.
proof fn lemma_cycle_through_sibling<T>(a: Arena<T>, h: int, c: int, p: int, d: nat, fuel: nat, ks: Seq<int>, ci: int)
    requires
        a.wf(),
        0 <= h < a.n(),
        0 <= c < a.n(),
        0 <= p < a.n(),
        h != c,
        a.par(h) == Some(p),
        a.par(c) == Some(p),
        d >= 1,
        a.up(h, d) == Some(c),
        0 <= ci < ks.len(),
        ks[ci] == c,
    ensures
        a.forest_fuel(ks, fuel) is None,
{
    if a.forest_fuel(ks, fuel) is Some {
        lemma_forest_member_fuel(a, ks, fuel, ci);
        lemma_up_step(a, h);
        lemma_up_step(a, c);
        if d == 1 {
            // then c is h's parent p, so c is its own parent
            assert(c == p);
            lemma_cycle_no_fuel(a, c, 1, fuel);
        } else {
            // walking d steps from c returns to c through p
            assert(a.up(p, (d - 1) as nat) == Some(c)) by {
                lemma_up_compose(a, h, 1, (d - 1) as nat);
            }
            assert(a.up(c, d) == Some(c)) by {
                lemma_up_compose(a, c, 1, (d - 1) as nat);
            }
            lemma_cycle_no_fuel(a, c, d, fuel);
        }
        assert(false);
    }
}

/// A fuel-explored subtree repeats no slot, stays in the store, and each of
/// its members reaches the root by parent links.
proof fn lemma_pre_nodup<T>(a: Arena<T>, n: int, fuel: nat)
    requires
        a.wf(),
        0 <= n < a.n(),
        a.preorder_fuel(n, fuel) is Some,
    ensures
        ({
            let s = a.preorder_fuel(n, fuel)->Some_0;
            &&& s.no_duplicates()
            &&& forall|e: int| #[trigger] s.contains(e) ==> 0 <= e < a.n()
            &&& forall|e: int| #[trigger] s.contains(e) ==> exists|k: nat| a.up(e, k) == Some(n)
        }),
    decreases fuel, 1nat,
{
    let ks = a.child_seq(n);
    let s2 = a.forest_fuel(ks, (fuel - 1) as nat)->Some_0;
    let s = a.preorder_fuel(n, fuel)->Some_0;
    assert(s == seq![n] + s2);
    assert(a.chain_ok(n));
    lemma_forest_nodup(a, ks, (fuel - 1) as nat, n);
    // the root does not reappear below itself
    assert(!s2.contains(n)) by {
        if s2.contains(n) {
            let (i, k): (int, nat) = choose|i: int, k: nat|
                0 <= i < ks.len() && a.up(n, k) == Some(ks[i]);
            let c = ks[i];
            assert(a.up(c, 1) == Some(n)) by {
                assert(a.chain_ok(n));
                lemma_up_step(a, c);
            }
            assert(a.up(c, (1 + k) as nat) == Some(c)) by {
                lemma_up_compose(a, c, 1, k);
            }
            lemma_forest_member_fuel(a, ks, (fuel - 1) as nat, i);
            lemma_cycle_no_fuel(a, c, (1 + k) as nat, (fuel - 1) as nat);
            assert(false);
        }
    }
    assert(s.no_duplicates()) by {
        assert forall|x: int, y: int| 0 <= x < y < s.len() implies s[x] != s[y] by {
            if x == 0 {
                assert(s[y] == s2[y - 1]);
                if s[x] == s[y] {
                    assert(s2.contains(n));
                }
            } else {
                assert(s[x] == s2[x - 1] && s[y] == s2[y - 1]);
            }
        }
    }
    assert forall|e: int| #[trigger] s.contains(e) implies 0 <= e < a.n() && (exists|k: nat|
        a.up(e, k) == Some(n)) by {
        let w = choose|w: int| 0 <= w < s.len() && s[w] == e;
        if w == 0 {
            assert(a.up(n, 0) == Some(n));
        } else {
            assert(s2.contains(e));
            let (i, k): (int, nat) = choose|i: int, k: nat|
                0 <= i < ks.len() && a.up(e, k) == Some(ks[i]);
            assert(a.up(ks[i], 1) == Some(n)) by {
                assert(a.chain_ok(n));
                lemma_up_step(a, ks[i]);
            }
            assert(a.up(e, (k + 1) as nat) == Some(n)) by {
                lemma_up_compose(a, e, k, 1);
            }
        }
    }
}

/// The pre-order walk of a finite subtree names every slot at most once,
/// names the root, and names only slots whose parent chain leads back to
/// the root.
pub proof fn lemma_descendants_exactly_once<T>(a: Arena<T>, r: int)
    requires
        a.wf(),
        0 <= r < a.n(),
        a.finite_at(r),
    ensures
        a.preorder(r).no_duplicates(),
        a.preorder(r).contains(r),
        forall|e: int| #[trigger] a.preorder(r).contains(e) ==> 0 <= e < a.n(),
        forall|e: int| #[trigger] a.preorder(r).contains(e) ==> exists|k: nat| a.up(e, k) == Some(r),
{
    let fuel = choose|fuel: nat| (#[trigger] a.preorder_fuel(r, fuel)) is Some;
    lemma_pre_nodup(a, r, fuel);
    lemma_preorder_unfold(a, r);
    assert(a.preorder(r)[0] == r);
    assert(a.preorder(r).contains(r));
}

} // verus!
