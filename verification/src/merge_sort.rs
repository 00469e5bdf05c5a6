//! Bottom-up merge sort: sorted runs of doubling width are merged pairwise
//! until one run covers the whole vector.

use vstd::multiset::Multiset;
use vstd::prelude::*;

use crate::order::sorted;

verus! {

/// Any two positions inside the same aligned block of width `w` are in
/// order.
pub open spec fn runs_sorted(s: Seq<i64>, w: int) -> bool {
    forall|x: int, y: int|
        #![trigger s[x], s[y]]
        0 <= x <= y < s.len() && x / w == y / w ==> s[x] <= s[y]
}

/// Positions of one aligned block share their quotient; positions of
/// different blocks do not.
proof fn lemma_block_quotients(base: int, w: int, x: int, y: int)
    requires
        w >= 1,
        base % w == 0,
        base <= x < base + w,
        base <= y < base + w,
    ensures
        x / w == y / w,
        forall|z: int| 0 <= z < base ==> #[trigger] (z / w) < x / w,
{
    assert(x / w == base / w) by (nonlinear_arith)
        requires
            w >= 1,
            base % w == 0,
            base <= x < base + w,
    ;
    assert(y / w == base / w) by (nonlinear_arith)
        requires
            w >= 1,
            base % w == 0,
            base <= y < base + w,
    ;
    assert forall|z: int| 0 <= z < base implies #[trigger] (z / w) < x / w by {
        assert(z / w < base / w || base == 0) by (nonlinear_arith)
            requires
                w >= 1,
                base % w == 0,
                0 <= z < base,
        ;
    }
}

/// A sequence with no entries carries the empty multiset.
proof fn lemma_empty_seq_multiset(s: Seq<i64>)
    requires
        s.len() == 0,
    ensures
        s.to_multiset() =~= Multiset::<i64>::empty(),
{
    broadcast use vstd::seq_lib::group_to_multiset_ensures;
    broadcast use vstd::multiset::group_multiset_axioms;

    assert forall|x: i64| #[trigger] s.to_multiset().count(x) == 0 by {
        if s.to_multiset().count(x) > 0 {
            assert(s.contains(x));
        }
    }
}

/// Merges the aligned width-`width` runs of `src` pairwise into runs of
/// twice the width.
fn merge_pass(src: &Vec<i64>, width: usize) -> (r: Vec<i64>)
    requires
        1 <= width,
        runs_sorted(src@, width as int),
    ensures
        r@.len() == src@.len(),
        r@.to_multiset() == src@.to_multiset(),
        runs_sorted(r@, 2 * (width as int)),
{
    broadcast use vstd::seq_lib::group_to_multiset_ensures;
    broadcast use vstd::seq_lib::lemma_multiset_commutative;
    broadcast use vstd::multiset::group_multiset_axioms;

    let n = src.len();
    let ghost gw = width as int;
    let ghost gw2 = 2 * gw;
    let mut out: Vec<i64> = Vec::new();
    let mut i: usize = 0;
    proof {
        assert(out@.to_multiset() =~= src@.take(0).to_multiset());
    }
    while i < n
        invariant
            1 <= width,
            gw == width as int,
            gw2 == 2 * gw,
            n == src@.len(),
            runs_sorted(src@, gw),
            i <= n,
            (i as int) % gw2 == 0 || i == n,
            out@.len() == i,
            out@.to_multiset() == src@.take(i as int).to_multiset(),
            runs_sorted(out@, gw2),
        decreases n - i,
    {
        let ghost base = i as int;
        let ghost pre_out = out@;
        let mut left = i;
        let right0 = if n - i > width {
            i + width
        } else {
            n
        };
        let lmax = right0;
        let rmax = if n - right0 > width {
            right0 + width
        } else {
            n
        };
        let mut right = right0;
        proof {
            assert(base % gw == 0) by {
                vstd::arithmetic::div_mod::lemma_mod_mod(base, gw, 2);
                assert(gw * 2 == gw2);
                assert((base % gw2) % gw == base % gw);
            }
            assert((base + gw) % gw == 0) by {
                vstd::arithmetic::div_mod::lemma_mod_self_0(gw);
                vstd::arithmetic::div_mod::lemma_add_mod_noop(base, gw, gw);
            }
            assert(src@.subrange(base, base) =~= Seq::<i64>::empty());
            assert(src@.subrange(right0 as int, right0 as int) =~= Seq::<i64>::empty());
            lemma_empty_seq_multiset(src@.subrange(base, base));
            lemma_empty_seq_multiset(src@.subrange(right0 as int, right0 as int));
            assert(out@.take(base) =~= out@);
            assert(out@.to_multiset() =~= pre_out.to_multiset().add(
                src@.subrange(base, base).to_multiset().add(
                    src@.subrange(right0 as int, right0 as int).to_multiset(),
                ),
            ));
        }
        while left < lmax || right < rmax
            invariant
                1 <= width,
                gw == width as int,
                gw2 == 2 * gw,
                n == src@.len(),
                runs_sorted(src@, gw),
                base == i,
                0 <= base <= n,
                base % gw2 == 0,
                base % gw == 0,
                (right0 as int) < n ==> (right0 as int) % gw == 0,
                base <= left <= lmax <= n,
                lmax == right0,
                right0 <= right <= rmax <= n,
                lmax <= base + gw,
                (lmax < base + gw ==> lmax == n),
                right0 == (if n - base > gw { base + gw } else { n as int }),
                rmax <= right0 + gw,
                rmax <= base + gw2,
                (rmax < base + gw2 ==> rmax == n),
                out@.len() == base + (left - base) + (right - right0),
                pre_out == out@.take(base),
                pre_out.len() == base,
                out@.to_multiset() == pre_out.to_multiset().add(
                    src@.subrange(base, left as int).to_multiset().add(
                        src@.subrange(right0 as int, right as int).to_multiset(),
                    ),
                ),
                forall|x: int, y: int|
                    #![trigger out@[x], out@[y]]
                    base <= x <= y < out@.len() ==> out@[x] <= out@[y],
                forall|k: int| 0 <= k < base ==> #[trigger] out@[k] == pre_out[k],
                left < lmax && out@.len() > base ==> out@.last() <= src@[left as int],
                right < rmax && out@.len() > base ==> out@.last() <= src@[right as int],
            decreases (lmax - left) + (rmax - right),
        {
            let ghost snap = out@;
            let take_left = if left < lmax && right < rmax {
                src[left] < src[right]
            } else {
                left < lmax
            };
            if take_left {
                let v = src[left];
                out.push(v);
                left = left + 1;
                proof {
                    broadcast use vstd::seq_lib::group_to_multiset_ensures;
                    broadcast use vstd::multiset::group_multiset_axioms;
                    assert(src@.subrange(base, left as int) =~= src@.subrange(
                        base,
                        left - 1,
                    ).push(v));
                    assert(out@ == snap.push(v));
                    assert(snap.push(v).to_multiset() == snap.to_multiset().insert(v));
                    if left < lmax {
                        lemma_block_quotients(base, gw, left - 1, left as int);
                        assert(src@[left - 1] <= src@[left as int]);
                    }
                }
            } else {
                let v = src[right];
                out.push(v);
                right = right + 1;
                proof {
                    broadcast use vstd::seq_lib::group_to_multiset_ensures;
                    broadcast use vstd::multiset::group_multiset_axioms;
                    assert(src@.subrange(right0 as int, right as int) =~= src@.subrange(
                        right0 as int,
                        right - 1,
                    ).push(v));
                    assert(out@ == snap.push(v));
                    assert(snap.push(v).to_multiset() == snap.to_multiset().insert(v));
                    if right < rmax {
                        lemma_block_quotients(right0 as int, gw, right - 1, right as int);
                        assert(src@[right - 1] <= src@[right as int]);
                    }
                    if left < lmax {
                        assert(src@[left as int] >= v);
                    }
                }
            }
            proof {
                broadcast use vstd::seq_lib::group_to_multiset_ensures;
                broadcast use vstd::multiset::group_multiset_axioms;

                assert(out@ == snap.push(out@.last()));
                assert(out@.take(base) =~= snap.take(base));
                assert(out@.to_multiset() =~= pre_out.to_multiset().add(
                    src@.subrange(base, left as int).to_multiset().add(
                        src@.subrange(right0 as int, right as int).to_multiset(),
                    ),
                ));
            }
        }
        proof {
            broadcast use vstd::seq_lib::group_to_multiset_ensures;
            broadcast use vstd::seq_lib::lemma_multiset_commutative;
            broadcast use vstd::multiset::group_multiset_axioms;

            // the finished block extends the doubled runs
            assert(left == lmax && right == rmax);
            assert forall|x: int, y: int|
                #![trigger out@[x], out@[y]]
                0 <= x <= y < out@.len() && x / gw2 == y / gw2 implies out@[x] <= out@[y] by {
                if y >= base {
                    if x >= base {
                    } else {
                        lemma_block_quotients(base, gw2, y, y);
                        assert(x / gw2 < y / gw2);
                    }
                } else {
                    assert(out@[x] == pre_out[x] && out@[y] == pre_out[y]);
                    assert(pre_out[x] == out@.take(base)[x]);
                }
            }
            // everything consumed is exactly the block
            assert(src@.subrange(base, lmax as int) + src@.subrange(lmax as int, rmax as int)
                =~= src@.subrange(base, rmax as int));
            assert((src@.subrange(base, lmax as int) + src@.subrange(
                lmax as int,
                rmax as int,
            )).to_multiset() =~= src@.subrange(base, lmax as int).to_multiset().add(
                src@.subrange(lmax as int, rmax as int).to_multiset(),
            ));
            assert(src@.take(rmax as int) =~= src@.take(base) + src@.subrange(
                base,
                rmax as int,
            ));
            assert((src@.take(base) + src@.subrange(base, rmax as int)).to_multiset()
                =~= src@.take(base).to_multiset().add(
                src@.subrange(base, rmax as int).to_multiset(),
            ));
            assert(pre_out.to_multiset() == src@.take(base).to_multiset());
            assert(out@.to_multiset() =~= src@.take(rmax as int).to_multiset());
            // the next block stays aligned
            if rmax < n {
                assert(rmax == base + gw2);
                assert((base + gw2) % gw2 == 0) by (nonlinear_arith)
                    requires
                        base % gw2 == 0,
                        gw2 >= 2,
                ;
            }
        }
        i = rmax;
    }
    proof {
        assert(src@.take(n as int) =~= src@);
    }
    out
}

/// Returns the elements of `array` in ascending order, merging sorted runs
/// of doubling width.
pub fn merge_sort(array: &Vec<i64>) -> (r: Vec<i64>)
    ensures
        sorted(r@),
        r@.len() == array@.len(),
        r@.to_multiset() == array@.to_multiset(),
{
    let n = array.len();
    let mut z: Vec<i64> = Vec::new();
    let mut i: usize = 0;
    while i < n
        invariant
            n == array@.len(),
            i <= n,
            z@ == array@.take(i as int),
        decreases n - i,
    {
        z.push(array[i]);
        i = i + 1;
        proof {
            assert(z@ =~= array@.take(i as int));
        }
    }
    proof {
        assert(array@.take(n as int) =~= array@);
        assert forall|x: int, y: int|
            #![trigger z@[x], z@[y]]
            0 <= x <= y < z@.len() && x / 1int == y / 1int implies z@[x] <= z@[y] by {
            assert(x == x / 1int && y == y / 1int);
        }
    }
    let mut width: usize = 1;
    while width < n
        invariant
            n == array@.len(),
            1 <= width,
            z@.len() == n,
            z@.to_multiset() == array@.to_multiset(),
            runs_sorted(z@, width as int),
        decreases n - width,
    {
        let ghost oldwidth = width as int;
        z = merge_pass(&z, width);
        if width <= n / 2 {
            width = 2 * width;
        } else {
            proof {
                lemma_wide_run_sorted(z@, 2 * oldwidth);
                assert forall|x: int, y: int|
                    #![trigger z@[x], z@[y]]
                    0 <= x <= y < z@.len() && x / (n as int) == y / (n as int) implies z@[x]
                    <= z@[y] by {}
            }
            width = n;
        }
    }
    proof {
        if n > 0 {
            lemma_wide_run_sorted(z@, width as int);
        }
    }
    z
}

/// A run width at least the length makes the whole sequence one sorted run.
proof fn lemma_wide_run_sorted(s: Seq<i64>, w: int)
    requires
        w >= s.len(),
        w >= 1,
        runs_sorted(s, w),
    ensures
        sorted(s),
{
    assert forall|x: int, y: int| 0 <= x <= y < s.len() implies s[x] <= s[y] by {
        assert(x / w == 0 && y / w == 0) by (nonlinear_arith)
            requires
                w >= 1,
                0 <= x < w,
                0 <= y < w,
        ;
        assert(s[x] <= s[y]);
    }
}

} // verus!
