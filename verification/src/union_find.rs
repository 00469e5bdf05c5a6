//! A disjoint-set forest (union-find) with union by weight and path
//! compression, keyed by hashable values.

use core::hash::Hash;
use std::collections::HashMap;
use vstd::prelude::*;
use vstd::std_specs::hash::obeys_key_model;

verus! {

/// Disjoint sets over the values added so far; each set is named by the
/// slot number of its representative.
pub struct UnionFind<T: Hash + Eq> {
    index: HashMap<T, usize>,
    parent: Vec<usize>,
    size: Vec<usize>,
    rep: Ghost<Seq<int>>,
    rank: Ghost<Seq<int>>,
}

impl<T: Hash + Eq> UnionFind<T> {
    /// The number of slots ever added.
    pub closed spec fn n(self) -> int {
        self.parent@.len() as int
    }

    /// The key table, as a map from values to slots.
    pub closed spec fn key_map(self) -> Map<T, usize> {
        self.index@
    }

    /// `v` has been added.
    pub closed spec fn keyed(self, v: T) -> bool {
        self.index@.contains_key(v)
    }

    /// The slot behind the latest addition of `v`.
    pub closed spec fn idx_of(self, v: T) -> int {
        self.index@[v] as int
    }

    /// The representative of slot `i`.
    pub closed spec fn rep_of(self, i: int) -> int {
        self.rep@[i]
    }

    /// The weight recorded at slot `i` (meaningful at representatives).
    pub closed spec fn weight_of(self, i: int) -> int {
        self.size@[i] as int
    }

    /// The forest invariant: parent links stay in range, every slot knows
    /// its representative, which is a root, ranks grow strictly along
    /// parent links, and no slot outranks its representative.
    pub closed spec fn wf(self) -> bool {
        &&& self.size@.len() == self.n()
        &&& self.rep@.len() == self.n()
        &&& self.rank@.len() == self.n()
        &&& (forall|v: T| self.index@.contains_key(v) ==> 0 <= #[trigger] self.index@[v] < self.n())
        &&& (forall|i: int| 0 <= i < self.n() ==> 0 <= #[trigger] self.parent@[i] < self.n())
        &&& (forall|i: int| 0 <= i < self.n() ==> 0 <= #[trigger] self.rep@[i] < self.n())
        &&& (forall|i: int|
            0 <= i < self.n() ==> (#[trigger] self.parent@[i] == i <==> self.rep@[i] == i))
        &&& (forall|i: int|
            0 <= i < self.n() ==> #[trigger] self.rep@[self.parent@[i] as int] == self.rep@[i])
        &&& (forall|i: int|
            0 <= i < self.n() ==> #[trigger] self.parent@[self.rep@[i]] == self.rep@[i])
        &&& (forall|i: int|
            0 <= i < self.n() ==> #[trigger] self.rank@[i] <= self.rank@[self.rep@[i]])
        &&& (forall|i: int|
            0 <= i < self.n() && self.parent@[i] != i ==> #[trigger] self.rank@[i] < self.rank@[self.parent@[i] as int])
    }

    /// Creates an empty family of sets.
    pub fn new() -> (r: UnionFind<T>)
        ensures
            r.wf(),
            r.n() == 0,
            forall|v: T| !r.keyed(v),
    {
        UnionFind {
            index: HashMap::new(),
            parent: Vec::new(),
            size: Vec::new(),
            rep: Ghost(Seq::empty()),
            rank: Ghost(Seq::empty()),
        }
    }

    /// Adds `value` as a new singleton set. Adding a value again makes a
    /// fresh singleton and re-keys the value to it.
    #[verifier::rlimit(60)]
    #[verifier::spinoff_prover]
    pub fn add_set(&mut self, value: T)
        requires
            old(self).wf(),
            obeys_key_model::<T>(),
        ensures
            final(self).wf(),
            final(self).n() == old(self).n() + 1,
            final(self).keyed(value),
            final(self).idx_of(value) == old(self).n(),
            forall|v: T| old(self).keyed(v) ==> final(self).keyed(v),
            forall|v: T|
                old(self).keyed(v) && v != value ==> final(self).idx_of(v) == old(self).idx_of(v),
            forall|i: int|
                0 <= i < old(self).n() ==> final(self).rep_of(i) == old(self).rep_of(i),
            final(self).rep_of(old(self).n()) == old(self).n(),
            forall|i: int|
                0 <= i < old(self).n() ==> final(self).weight_of(i) == old(self).weight_of(i),
            final(self).weight_of(old(self).n()) == 1,
    {
        broadcast use vstd::std_specs::hash::group_hash_axioms;

        let new_idx = self.parent.len();
        self.index.insert(value, new_idx);
        self.parent.push(new_idx);
        self.size.push(1);
        proof {
            self.rep@ = self.rep@.push(new_idx as int);
            self.rank@ = self.rank@.push(0);
        }
    }

    /// The representative slot of `idx`, compressing the path behind it.
    #[verifier::rlimit(100)]
    #[verifier::spinoff_prover]
    fn set_by_idx(&mut self, idx: usize) -> (r: usize)
        requires
            old(self).wf(),
            idx < old(self).n(),
        ensures
            final(self).wf(),
            r == old(self).rep_of(idx as int),
            final(self).n() == old(self).n(),
            final(self).index@ == old(self).index@,
            forall|i: int| 0 <= i < old(self).n() ==> final(self).rep_of(i) == old(self).rep_of(i),
            forall|i: int|
                0 <= i < old(self).n() ==> final(self).weight_of(i) == old(self).weight_of(i),
            final(self).rank@ == old(self).rank@,
        decreases old(self).rank@[old(self).rep@[idx as int]] - old(self).rank@[idx as int],
    {
        let ghost pre = *self;
        let p = self.parent[idx];
        if p == idx {
            idx
        } else {
            let root = self.set_by_idx(p);
            let ghost mid = *self;
            self.parent[idx] = root;
            proof {
                let ii = idx as int;
                let rt = root as int;
                assert(mid.rep@ =~= pre.rep@) by {
                    assert(mid.rep@.len() == mid.n() && pre.rep@.len() == pre.n());
                    assert forall|i: int|
                        0 <= i < pre.n() implies #[trigger] mid.rep@[i] == pre.rep@[i] by {
                        assert(mid.rep_of(i) == pre.rep_of(i));
                    }
                }
                assert(rt == mid.rep@[ii]) by {
                    assert(pre.rep@[p as int] == pre.rep@[ii]);
                }
                assert(rt != ii) by {
                    assert(pre.parent@[ii] != ii);
                }
                assert(mid.parent@[rt] == rt) by {
                    assert(mid.parent@[mid.rep@[ii]] == mid.rep@[ii]);
                }
                assert(mid.rank@[ii] < mid.rank@[rt]) by {
                    assert(pre.rank@[ii] < pre.rank@[p as int]);
                    assert(pre.rank@[p as int] <= pre.rank@[pre.rep@[p as int]]);
                }
                lemma_compress_wf(mid, *self, ii, root);
            }
            root
        }
    }


    /// The name of `value`'s set (its representative slot), or `None` when
    /// `value` was never added.
    pub fn find_set(&mut self, value: &T) -> (r: Option<usize>)
        requires
            old(self).wf(),
            obeys_key_model::<T>(),
        ensures
            final(self).wf(),
            r is Some <==> old(self).keyed(*value),
            r matches Some(root) ==> root == old(self).rep_of(old(self).idx_of(*value)),
            final(self).n() == old(self).n(),
            final(self).key_map() == old(self).key_map(),
            forall|i: int| 0 <= i < old(self).n() ==> final(self).rep_of(i) == old(self).rep_of(i),
            forall|i: int|
                0 <= i < old(self).n() ==> final(self).weight_of(i) == old(self).weight_of(i),
    {
        broadcast use vstd::std_specs::hash::group_hash_axioms;

        if self.index.contains_key(value) {
            let idx = *self.index.get(value).unwrap();
            let root = self.set_by_idx(idx);
            Some(root)
        } else {
            None
        }
    }

    /// True exactly when both values were added and share a representative.
    pub fn same_set(&mut self, first: &T, second: &T) -> (r: bool)
        requires
            old(self).wf(),
            obeys_key_model::<T>(),
        ensures
            final(self).wf(),
            r <==> (old(self).keyed(*first) && old(self).keyed(*second) && old(self).rep_of(
                old(self).idx_of(*first),
            ) == old(self).rep_of(old(self).idx_of(*second))),
            final(self).n() == old(self).n(),
            final(self).key_map() == old(self).key_map(),
            forall|i: int| 0 <= i < old(self).n() ==> final(self).rep_of(i) == old(self).rep_of(i),
            forall|i: int|
                0 <= i < old(self).n() ==> final(self).weight_of(i) == old(self).weight_of(i),
    {
        if let Some(first_set) = self.find_set(first) {
            if let Some(second_set) = self.find_set(second) {
                return first_set == second_set;
            }
        }
        false
    }

    /// Joins the sets of the two values, the lighter representative moving
    /// under the heavier (ties move the first under the second). Nothing
    /// happens unless both values were added. Weights add, saturating at
    /// the machine limit.
    pub fn union_sets(&mut self, first: &T, second: &T)
        requires
            old(self).wf(),
            obeys_key_model::<T>(),
        ensures
            final(self).wf(),
            final(self).n() == old(self).n(),
            final(self).key_map() == old(self).key_map(),
            !(old(self).keyed(*first) && old(self).keyed(*second)) ==> forall|i: int|
                0 <= i < old(self).n() ==> final(self).rep_of(i) == old(self).rep_of(i),
            old(self).keyed(*first) && old(self).keyed(*second) ==> ({
                let r1 = old(self).rep_of(old(self).idx_of(*first));
                let r2 = old(self).rep_of(old(self).idx_of(*second));
                let w1 = old(self).weight_of(r1);
                let w2 = old(self).weight_of(r2);
                let winner = if w1 > w2 {
                    r1
                } else {
                    r2
                };
                let loser = if w1 > w2 {
                    r2
                } else {
                    r1
                };
                &&& (forall|i: int|
                    0 <= i < old(self).n() ==> final(self).rep_of(i) == (if old(self).rep_of(i)
                        == loser {
                        winner
                    } else {
                        old(self).rep_of(i)
                    }))
                &&& (r1 != r2 ==> final(self).weight_of(winner) == (if w1 + w2 <= usize::MAX {
                    w1 + w2
                } else {
                    usize::MAX as int
                }))
            }),
    {
        let f = self.find_set(first);
        if let Some(first_set) = f {
            let s = self.find_set(second);
            if let Some(second_set) = s {
                let ghost mid = *self;
                if first_set == second_set {
                    return ;
                }
                let size1 = self.size[first_set];
                let size2 = self.size[second_set];
                if size1 > size2 {
                    self.parent[second_set] = first_set;
                    self.size[first_set] = size1.saturating_add(size2);
                    proof {
                        let loser = second_set as int;
                        let winner = first_set as int;
                        self.rank@ = joined_rank(mid.rank@, loser, winner);
                        self.rep@ = joined_rep(mid.rep@, loser, winner);
                        lemma_join_wf(mid, *self, loser, winner);
                    }
                } else {
                    self.parent[first_set] = second_set;
                    self.size[second_set] = size2.saturating_add(size1);
                    proof {
                        let loser = first_set as int;
                        let winner = second_set as int;
                        self.rank@ = joined_rank(mid.rank@, loser, winner);
                        self.rep@ = joined_rep(mid.rep@, loser, winner);
                        lemma_join_wf(mid, *self, loser, winner);
                    }
                }
            }
        }
    }

}

/// Ranks after a join: the winner absorbs the loser one level below it.
pub closed spec fn joined_rank(rank: Seq<int>, loser: int, winner: int) -> Seq<int> {
    rank.update(
        winner,
        if rank[winner] >= rank[loser] + 1 {
            rank[winner]
        } else {
            rank[loser] + 1
        },
    )
}

/// Representatives after a join: whoever answered to the loser now answers
/// to the winner.
pub closed spec fn joined_rep(rep: Seq<int>, loser: int, winner: int) -> Seq<int> {
    Seq::new(
        rep.len(),
        |i: int|
            if rep[i] == loser {
                winner
            } else {
                rep[i]
            },
    )
}

/// Re-pointing a non-root slot directly at its representative (path
/// compression) preserves the forest invariant.
#[verifier::spinoff_prover]
proof fn lemma_compress_wf<T: Hash + Eq>(mid: UnionFind<T>, post: UnionFind<T>, ii: int, root: usize)
    requires
        mid.wf(),
        0 <= ii < mid.n(),
        root as int == mid.rep@[ii],
        root as int != ii,
        post.parent@ == mid.parent@.update(ii, root),
        post.rep@ == mid.rep@,
        post.rank@ == mid.rank@,
        post.index@ == mid.index@,
        post.size@ == mid.size@,
        mid.rank@[ii] < mid.rank@[root as int],
    ensures
        post.wf(),
{
    let rt = root as int;
    assert(mid.parent@[rt] == rt) by {
        assert(mid.parent@[mid.rep@[ii]] == mid.rep@[ii]);
    }
    assert(mid.rep@[rt] == rt) by {
        assert(mid.parent@[rt] == rt);
    }
    assert forall|i: int|
        0 <= i < post.n() implies (#[trigger] post.parent@[i] == i <==> post.rep@[i] == i) by {
        if i != ii {
            assert(post.parent@[i] == mid.parent@[i]);
        }
    }
    assert forall|i: int|
        0 <= i < post.n() implies #[trigger] post.rep@[post.parent@[i] as int] == post.rep@[i] by {
        if i == ii {
            assert(mid.rep@[rt] == rt);
        } else {
            assert(post.parent@[i] == mid.parent@[i]);
            assert(mid.rep@[mid.parent@[i] as int] == mid.rep@[i]);
        }
    }
    assert forall|i: int|
        0 <= i < post.n() implies #[trigger] post.parent@[post.rep@[i]] == post.rep@[i] by {
        assert(mid.parent@[mid.rep@[i]] == mid.rep@[i]);
        if mid.rep@[i] == ii {
            assert(mid.parent@[ii] == ii);
            assert(mid.rep@[ii] == ii);
            assert(false);
        }
    }
    assert forall|i: int|
        0 <= i < post.n() && post.parent@[i] != i implies #[trigger] post.rank@[i]
        < post.rank@[post.parent@[i] as int] by {
        if i != ii {
            assert(post.parent@[i] == mid.parent@[i]);
            assert(mid.rank@[i] < mid.rank@[mid.parent@[i] as int]);
        }
    }
}

/// Re-parenting one root under another, with the joined ghost model,
/// preserves the forest invariant.
proof fn lemma_join_wf<T: Hash + Eq>(mid: UnionFind<T>, post: UnionFind<T>, loser: int, winner: int)
    requires
        mid.wf(),
        0 <= loser < mid.n(),
        0 <= winner < mid.n(),
        loser != winner,
        mid.rep@[loser] == loser,
        mid.rep@[winner] == winner,
        post.parent@ == mid.parent@.update(loser, winner as usize),
        post.size@.len() == mid.size@.len(),
        post.rep@ == joined_rep(mid.rep@, loser, winner),
        post.rank@ == joined_rank(mid.rank@, loser, winner),
        post.index@ == mid.index@,
    ensures
        post.wf(),
        forall|i: int|
            0 <= i < mid.n() ==> post.rep_of(i) == (if mid.rep_of(i) == loser {
                winner
            } else {
                mid.rep_of(i)
            }),
{
    assert(mid.parent@[loser] == loser);
    assert(mid.parent@[winner] == winner);
    assert forall|i: int|
        0 <= i < post.n() implies (#[trigger] post.parent@[i] == i <==> post.rep@[i] == i) by {
        if i == loser {
        } else {
            assert(post.parent@[i] == mid.parent@[i]);
        }
    }
    assert forall|i: int|
        0 <= i < post.n() implies #[trigger] post.rep@[post.parent@[i] as int] == post.rep@[i] by {
        if i == loser {
            assert(post.rep@[winner] == winner);
        } else {
            assert(mid.rep@[mid.parent@[i] as int] == mid.rep@[i]);
        }
    }
    assert forall|i: int|
        0 <= i < post.n() implies #[trigger] post.parent@[post.rep@[i]] == post.rep@[i] by {
        if mid.rep@[i] == loser {
            assert(post.rep@[i] == winner);
        } else {
            assert(post.rep@[i] == mid.rep@[i]);
            assert(mid.parent@[mid.rep@[i]] == mid.rep@[i]);
            assert(mid.rep@[i] != loser);
        }
    }
    assert forall|i: int|
        0 <= i < post.n() implies #[trigger] post.rank@[i] <= post.rank@[post.rep@[i]] by {
        if mid.rep@[i] == loser {
            assert(mid.rank@[i] <= mid.rank@[loser]);
            assert(post.rep@[i] == winner);
            assert(post.rank@[winner] >= mid.rank@[loser] + 1);
            if i != winner {
                assert(post.rank@[i] == mid.rank@[i]);
            }
        } else {
            assert(mid.rank@[i] <= mid.rank@[mid.rep@[i]]);
            assert(post.rep@[i] == mid.rep@[i]);
            if i == winner {
                assert(mid.rep@[i] == winner);
            }
            if mid.rep@[i] == winner {
                assert(post.rank@[winner] >= mid.rank@[winner]);
                if i != winner {
                    assert(post.rank@[i] == mid.rank@[i]);
                }
            } else {
                if i == winner {
                } else {
                    assert(post.rank@[i] == mid.rank@[i] && post.rank@[mid.rep@[i]]
                        == mid.rank@[mid.rep@[i]]);
                }
            }
        }
    }
    assert forall|i: int|
        0 <= i < post.n() && post.parent@[i] != i implies #[trigger] post.rank@[i] < post.rank@[post.parent@[i] as int] by {
        if i == loser {
            assert(post.rank@[i] == mid.rank@[loser]);
            assert(post.rank@[winner] >= mid.rank@[loser] + 1);
        } else {
            assert(post.parent@[i] == mid.parent@[i]);
            assert(mid.rank@[i] < mid.rank@[mid.parent@[i] as int]);
            if i == winner {
                assert(mid.parent@[winner] == winner);
            }
            if mid.parent@[i] as int == winner {
                assert(post.rank@[winner] >= mid.rank@[winner]);
                assert(post.rank@[i] == mid.rank@[i]);
            } else {
                assert(post.rank@[i] == mid.rank@[i] || i == winner);
                assert(post.rank@[mid.parent@[i] as int] == mid.rank@[mid.parent@[i] as int]);
            }
        }
    }
}

} // verus!
