//! A binary search tree as a recursive enum over machine integers; smaller
//! values go left, equal and greater ones go right.

use vstd::prelude::*;

use crate::order::sorted;

verus! {

/// A search tree: empty, a single value, or a value between two subtrees.
#[derive(Debug, PartialEq)]
pub enum BSearchTree {
    Empty,
    Leaf(i64),
    Node(Box<BSearchTree>, i64, Box<BSearchTree>),
}

/// A three-part in-order sequence is sorted exactly when its parts are
/// sorted and the middle value separates them.
proof fn lemma_sorted_node(l: Seq<i64>, v: i64, r: Seq<i64>)
    ensures
        sorted(l + seq![v] + r) <==> (sorted(l) && sorted(r) && (forall|i: int|
            0 <= i < l.len() ==> #[trigger] l[i] <= v) && (forall|j: int|
            0 <= j < r.len() ==> v <= #[trigger] r[j])),
{
    let s = l + seq![v] + r;
    let n = l.len() as int;
    assert(s[n] == v);
    assert(forall|i: int| 0 <= i < l.len() ==> #[trigger] l[i] == s[i]);
    assert(forall|j: int| 0 <= j < r.len() ==> #[trigger] r[j] == s[n + 1 + j]);
    if sorted(l) && sorted(r) && (forall|i: int| 0 <= i < l.len() ==> #[trigger] l[i] <= v) && (
    forall|j: int| 0 <= j < r.len() ==> v <= #[trigger] r[j]) {
        assert forall|x: int, y: int| 0 <= x <= y < s.len() implies s[x] <= s[y] by {
            if y < n {
                assert(s[x] == l[x] && s[y] == l[y]);
            } else if x > n {
                assert(s[x] == r[x - n - 1] && s[y] == r[y - n - 1]);
            } else if x < n && y == n {
                assert(s[x] == l[x]);
            } else if x == n && y > n {
                assert(s[y] == r[y - n - 1]);
            } else if x < n && y > n {
                assert(s[x] == l[x] && s[y] == r[y - n - 1]);
                assert(l[x] <= v && v <= r[y - n - 1]);
            }
        }
    }
}

impl BSearchTree {
    /// The stored values, in symmetric (sorted) order.
    pub open spec fn values(self) -> Seq<i64>
        decreases self,
    {
        match self {
            BSearchTree::Empty => Seq::empty(),
            BSearchTree::Leaf(v) => seq![v],
            BSearchTree::Node(l, v, r) => l.values() + seq![v] + r.values(),
        }
    }

    /// The search-tree order holds everywhere.
    pub open spec fn wf(self) -> bool {
        sorted(self.values())
    }

    /// The value at this root, if any.
    pub open spec fn spec_value(self) -> Option<i64> {
        match self {
            BSearchTree::Empty => None,
            BSearchTree::Leaf(v) => Some(v),
            BSearchTree::Node(_, v, _) => Some(v),
        }
    }

    /// The value the leftward spine ends in: the minimum, unless the walk
    /// runs into an empty left side.
    pub open spec fn leftmost(self) -> Option<i64>
        decreases self,
    {
        match self {
            BSearchTree::Empty => None,
            BSearchTree::Leaf(v) => Some(v),
            BSearchTree::Node(l, v, r) => l.leftmost(),
        }
    }

    /// The value the rightward spine ends in.
    pub open spec fn rightmost(self) -> Option<i64>
        decreases self,
    {
        match self {
            BSearchTree::Empty => None,
            BSearchTree::Leaf(v) => Some(v),
            BSearchTree::Node(l, v, r) => r.rightmost(),
        }
    }

    /// Height as a spec value.
    pub open spec fn spec_height(self) -> int
        decreases self,
    {
        match self {
            BSearchTree::Empty => 0,
            BSearchTree::Leaf(v) => 1,
            BSearchTree::Node(l, v, r) => 1 + if l.spec_height() >= r.spec_height() {
                l.spec_height()
            } else {
                r.spec_height()
            },
        }
    }

    /// The number of stored values.
    pub fn count(&self) -> (r: usize)
        requires
            self.values().len() <= usize::MAX,
        ensures
            r == self.values().len(),
        decreases self,
    {
        match self {
            BSearchTree::Empty => 0,
            BSearchTree::Leaf(_) => 1,
            BSearchTree::Node(left, _, right) => 1 + left.count() + right.count(),
        }
    }

    /// The value at the root, if any.
    pub fn value(&self) -> (r: Option<&i64>)
        ensures
            match r {
                Some(v) => self.spec_value() == Some(*v),
                None => self.spec_value() is None,
            },
    {
        match self {
            BSearchTree::Empty => None,
            BSearchTree::Leaf(v) => Some(v),
            BSearchTree::Node(_, v, _) => Some(v),
        }
    }

    /// The number of levels.
    pub fn height(&self) -> (r: usize)
        requires
            self.spec_height() <= usize::MAX,
        ensures
            r == self.spec_height(),
        decreases self,
    {
        match self {
            BSearchTree::Empty => 0,
            BSearchTree::Leaf(_) => 1,
            BSearchTree::Node(left, _, right) => {
                let lh = left.height();
                let rh = right.height();
                1 + if lh >= rh {
                    lh
                } else {
                    rh
                }
            },
        }
    }

    /// Adds `value`, keeping the search order; equal values go right.
    pub fn insert(self, value: i64) -> (r: BSearchTree)
        requires
            self.wf(),
        ensures
            r.wf(),
            r.values().to_multiset() == self.values().to_multiset().insert(value),
        decreases self,
    {
        broadcast use vstd::seq_lib::group_to_multiset_ensures;
        broadcast use vstd::seq_lib::lemma_multiset_commutative;
        broadcast use vstd::multiset::group_multiset_axioms;

        match self {
            BSearchTree::Empty => {
                let r = BSearchTree::Leaf(value);
                proof {
                    assert(r.values() =~= Seq::empty().push(value));
                    assert(r.values().to_multiset() =~= self.values().to_multiset().insert(value));
                }
                r
            },
            BSearchTree::Leaf(val) => {
                let r = if value < val {
                    BSearchTree::Node(
                        Box::new(BSearchTree::Leaf(value)),
                        val,
                        Box::new(BSearchTree::Empty),
                    )
                } else {
                    BSearchTree::Node(
                        Box::new(BSearchTree::Empty),
                        val,
                        Box::new(BSearchTree::Leaf(value)),
                    )
                };
                proof {
                    assert(BSearchTree::Empty.values() =~= Seq::<i64>::empty());
                    assert(BSearchTree::Leaf(value).values() =~= seq![value]);
                    assert(BSearchTree::Leaf(val).values() =~= seq![val]);
                    if value < val {
                        assert(r.values() =~= seq![value, val]);
                        assert(r.values() =~= seq![value].push(val));
                        assert(seq![value] =~= Seq::empty().push(value));
                        assert(seq![val] =~= Seq::empty().push(val));
                    } else {
                        assert(r.values() =~= seq![val, value]);
                        assert(r.values() =~= seq![val].push(value));
                        assert(seq![val] =~= Seq::empty().push(val));
                    }
                    assert(r.values().to_multiset() =~= self.values().to_multiset().insert(value));
                }
                r
            },
            BSearchTree::Node(left, val, right) => {
                proof {
                    lemma_sorted_node(left.values(), val, right.values());
                }
                if value < val {
                    let ghost lpre = left.values();
                    let new_left = (*left).insert(value);
                    let r = BSearchTree::Node(Box::new(new_left), val, right);
                    proof {
                        lemma_values_bound(new_left.values(), lpre, value, val);
                        lemma_sorted_node(new_left.values(), val, right.values());
                        assert(r.values().to_multiset() =~= self.values().to_multiset().insert(
                            value,
                        ));
                    }
                    r
                } else {
                    let ghost rpre = right.values();
                    let new_right = (*right).insert(value);
                    let r = BSearchTree::Node(left, val, Box::new(new_right));
                    proof {
                        lemma_values_bound_ge(new_right.values(), rpre, value, val);
                        lemma_sorted_node(left.values(), val, new_right.values());
                        assert(r.values().to_multiset() =~= self.values().to_multiset().insert(
                            value,
                        ));
                    }
                    r
                }
            },
        }
    }

    /// The subtree rooted where `value` first matches on the search path, or
    /// `None` exactly when the tree does not hold `value`.
    pub fn search(&self, value: i64) -> (r: Option<&BSearchTree>)
        requires
            self.wf(),
        ensures
            r is Some <==> self.values().contains(value),
            match r {
                Some(t) => t.spec_value() == Some(value) && t.wf(),
                None => true,
            },
        decreases self,
    {
        match self {
            BSearchTree::Empty => None,
            BSearchTree::Leaf(val) => {
                if value == *val {
                    proof {
                        assert(self.values()[0] == value);
                    }
                    Some(self)
                } else {
                    None
                }
            },
            BSearchTree::Node(left, val, right) => {
                proof {
                    lemma_sorted_node(left.values(), *val, right.values());
                }
                if value == *val {
                    proof {
                        assert(self.values()[left.values().len() as int] == value);
                    }
                    Some(self)
                } else if value < *val {
                    let r = left.search(value);
                    proof {
                        lemma_member_split(left.values(), *val, right.values(), value);
                    }
                    r
                } else {
                    let r = right.search(value);
                    proof {
                        lemma_member_split(left.values(), *val, right.values(), value);
                    }
                    r
                }
            },
        }
    }

    /// True exactly when the tree holds `value`.
    pub fn contains(&self, value: i64) -> (r: bool)
        requires
            self.wf(),
        ensures
            r <==> self.values().contains(value),
    {
        match self.search(value) {
            Some(_) => true,
            None => false,
        }
    }

    /// The node the leftward spine ends in. When the walk meets a node with
    /// an empty left side it stops with `None`; otherwise the node holds the
    /// least stored value.
    pub fn minimum(&self) -> (r: Option<&BSearchTree>)
        requires
            self.wf(),
        ensures
            r is Some <==> self.leftmost() is Some,
            match r {
                Some(t) => t.spec_value() == self.leftmost() && self.values().len() > 0
                    && self.leftmost() == Some(self.values()[0]),
                None => true,
            },
        decreases self,
    {
        match self {
            BSearchTree::Empty => None,
            BSearchTree::Leaf(_) => Some(self),
            BSearchTree::Node(left, val, right) => {
                proof {
                    lemma_sorted_node(left.values(), *val, right.values());
                }
                let r = left.minimum();
                proof {
                    if left.leftmost() is Some {
                        assert(self.values()[0] == left.values()[0]);
                    }
                }
                r
            },
        }
    }

    /// The node the rightward spine ends in; when present it holds the
    /// greatest stored value.
    pub fn maximum(&self) -> (r: Option<&BSearchTree>)
        requires
            self.wf(),
        ensures
            r is Some <==> self.rightmost() is Some,
            match r {
                Some(t) => t.spec_value() == self.rightmost() && self.values().len() > 0
                    && self.rightmost() == Some(self.values().last()),
                None => true,
            },
        decreases self,
    {
        match self {
            BSearchTree::Empty => None,
            BSearchTree::Leaf(_) => Some(self),
            BSearchTree::Node(left, val, right) => {
                proof {
                    lemma_sorted_node(left.values(), *val, right.values());
                }
                let r = right.maximum();
                proof {
                    if right.rightmost() is Some {
                        assert(self.values().last() == right.values().last());
                    }
                }
                r
            },
        }
    }
}

/// Inserting a value bounded by `v` into a sequence bounded by `v` keeps the
/// bound (multiset membership view).
proof fn lemma_values_bound(post: Seq<i64>, pre: Seq<i64>, value: i64, v: i64)
    requires
        post.to_multiset() == pre.to_multiset().insert(value),
        value <= v,
        forall|i: int| 0 <= i < pre.len() ==> #[trigger] pre[i] <= v,
    ensures
        forall|i: int| 0 <= i < post.len() ==> #[trigger] post[i] <= v,
{
    broadcast use vstd::seq_lib::group_to_multiset_ensures;
    broadcast use vstd::multiset::group_multiset_axioms;

    assert forall|i: int| 0 <= i < post.len() implies #[trigger] post[i] <= v by {
        let x = post[i];
        assert(post.contains(x));
        assert(post.to_multiset().count(x) > 0);
        if x != value {
            assert(pre.to_multiset().count(x) > 0);
            assert(pre.contains(x));
            let w = choose|w: int| 0 <= w < pre.len() && pre[w] == x;
            assert(pre[w] <= v);
        }
    }
}

/// The mirror of `lemma_values_bound` for lower bounds.
proof fn lemma_values_bound_ge(post: Seq<i64>, pre: Seq<i64>, value: i64, v: i64)
    requires
        post.to_multiset() == pre.to_multiset().insert(value),
        v <= value,
        forall|i: int| 0 <= i < pre.len() ==> v <= #[trigger] pre[i],
    ensures
        forall|i: int| 0 <= i < post.len() ==> v <= #[trigger] post[i],
{
    broadcast use vstd::seq_lib::group_to_multiset_ensures;
    broadcast use vstd::multiset::group_multiset_axioms;

    assert forall|i: int| 0 <= i < post.len() implies v <= #[trigger] post[i] by {
        let x = post[i];
        assert(post.contains(x));
        assert(post.to_multiset().count(x) > 0);
        if x != value {
            assert(pre.to_multiset().count(x) > 0);
            assert(pre.contains(x));
            let w = choose|w: int| 0 <= w < pre.len() && pre[w] == x;
            assert(v <= pre[w]);
        }
    }
}

/// Membership in a three-part sequence splits by comparison with the middle
/// value when the parts are bounded by it.
proof fn lemma_member_split(l: Seq<i64>, v: i64, r: Seq<i64>, value: i64)
    requires
        forall|i: int| 0 <= i < l.len() ==> #[trigger] l[i] <= v,
        forall|j: int| 0 <= j < r.len() ==> v <= #[trigger] r[j],
        value != v,
    ensures
        value < v ==> ((l + seq![v] + r).contains(value) <==> l.contains(value)),
        value > v ==> ((l + seq![v] + r).contains(value) <==> r.contains(value)),
{
    let s = l + seq![v] + r;
    let n = l.len() as int;
    assert(forall|i: int| 0 <= i < l.len() ==> #[trigger] l[i] == s[i]);
    assert(forall|j: int| 0 <= j < r.len() ==> #[trigger] r[j] == s[n + 1 + j]);
    if s.contains(value) {
        let w = choose|w: int| 0 <= w < s.len() && s[w] == value;
        if w < n {
            assert(l[w] == value);
            assert(l.contains(value));
        } else if w > n {
            assert(r[w - n - 1] == value);
            assert(r.contains(value));
        }
    }
    if l.contains(value) {
        let w = choose|w: int| 0 <= w < l.len() && l[w] == value;
        assert(s[w] == value);
        assert(s.contains(value));
    }
    if r.contains(value) {
        let w = choose|w: int| 0 <= w < r.len() && r[w] == value;
        assert(s[n + 1 + w] == value);
        assert(s.contains(value));
    }
}

} // verus!
