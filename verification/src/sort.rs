//! A stable-free merge sort over any strict weak order, with the proof that
//! its output is ordered and holds exactly the input's elements.
use vstd::prelude::*;
use vstd::seq_lib::lemma_multiset_commutative;
use std::collections::VecDeque;

verus! {

/// A strict weak order on a type.
pub trait Ranked: Sized {
    /// `self` comes strictly before `other`.
    spec fn ranks_before(&self, other: &Self) -> bool;

    proof fn lemma_ranks_before_irreflexive(a: &Self)
        ensures
            !a.ranks_before(a),
    ;

    proof fn lemma_ranks_before_transitive(a: &Self, b: &Self, c: &Self)
        requires
            a.ranks_before(b),
            b.ranks_before(c),
        ensures
            a.ranks_before(c),
    ;

    proof fn lemma_not_ranks_before_transitive(a: &Self, b: &Self, c: &Self)
        requires
            !b.ranks_before(a),
            !c.ranks_before(b),
        ensures
            !c.ranks_before(a),
    ;

    fn precedes(&self, other: &Self) -> (r: bool)
        ensures
            r == self.ranks_before(other),
    ;
}

/// No element comes strictly before one that stands ahead of it.
pub open spec fn is_ranked<T: Ranked>(s: Seq<T>) -> bool {
    forall|i: int, j: int| #![trigger s[i], s[j]] 0 <= i < j < s.len() ==> !s[j].ranks_before(&s[i])
}

pub fn into_deque<T>(v: Vec<T>) -> (d: VecDeque<T>)
    ensures
        d@ == v@,
{
    let ghost orig = v@;
    let mut v = v;
    let mut d: VecDeque<T> = VecDeque::new();
    while v.len() > 0
        invariant
            v@.len() <= orig.len(),
            v@ == orig.subrange(0, v@.len() as int),
            d@ == orig.subrange(v@.len() as int, orig.len() as int),
        decreases v@.len(),
    {
        let x = v.pop().unwrap();
        assert(v@ =~= orig.subrange(0, v@.len() as int));
        d.push_front(x);
        assert(d@ =~= orig.subrange(v@.len() as int, orig.len() as int));
    }
    assert(d@ =~= orig);
    d
}

fn merge<T: Ranked>(left: Vec<T>, right: Vec<T>) -> (r: Vec<T>)
    requires
        is_ranked(left@),
        is_ranked(right@),
    ensures
        is_ranked(r@),
        r@.to_multiset() == (left@ + right@).to_multiset(),
        r@.len() == left@.len() + right@.len(),
{
    let ghost total = left@ + right@;
    let mut ld = into_deque(left);
    let mut rd = into_deque(right);
    let mut out: Vec<T> = Vec::new();
    assert(out@ + ld@ + rd@ =~= total);
    while ld.len() > 0 || rd.len() > 0
        invariant
            is_ranked(out@),
            is_ranked(ld@),
            is_ranked(rd@),
            forall|i: int, k: int| #![trigger out@[i], ld@[k]] 0 <= i < out@.len() && 0 <= k < ld@.len()
                ==> !ld@[k].ranks_before(&out@[i]),
            forall|i: int, k: int| #![trigger out@[i], rd@[k]] 0 <= i < out@.len() && 0 <= k < rd@.len()
                ==> !rd@[k].ranks_before(&out@[i]),
            (out@ + ld@ + rd@).to_multiset() == total.to_multiset(),
            out@.len() + ld@.len() + rd@.len() == total.len(),
        decreases ld@.len() + rd@.len(),
    {
        let ghost out0 = out@;
        let ghost l0 = ld@;
        let ghost r0 = rd@;
        let take_right = if ld.len() == 0 {
            true
        } else if rd.len() == 0 {
            false
        } else {
            rd[0].precedes(&ld[0])
        };
        if take_right {
            let y = rd.pop_front().unwrap();
            proof {
                assert(y == r0[0]);
                assert forall|k: int| 0 <= k < l0.len() implies !(#[trigger] l0[k]).ranks_before(&y) by {
                    if l0[k].ranks_before(&y) {
                        T::lemma_ranks_before_transitive(&l0[k], &y, &l0[0]);
                        if k > 0 {
                            assert(!l0[k].ranks_before(&l0[0]));
                        } else {
                            T::lemma_ranks_before_irreflexive(&l0[0]);
                        }
                    }
                }
            }
            out.push(y);
            proof {
                assert(rd@ =~= r0.subrange(1, r0.len() as int));
                assert forall|i: int, j: int| #![trigger out@[i], out@[j]] 0 <= i < j < out@.len() implies !out@[j].ranks_before(&out@[i]) by {
                    if j < out0.len() {
                        assert(out@[j] == out0[j] && out@[i] == out0[i]);
                    } else {
                        assert(out@[i] == out0[i]);
                        assert(r0[0] == y);
                    }
                }
                assert forall|i: int, k: int| #![trigger out@[i], rd@[k]] 0 <= i < out@.len() && 0 <= k < rd@.len()
                    implies !rd@[k].ranks_before(&out@[i]) by {
                    assert(rd@[k] == r0[k + 1]);
                    if i < out0.len() {
                        assert(out@[i] == out0[i]);
                    } else {
                        assert(out@[i] == r0[0]);
                    }
                }
                assert forall|i: int, k: int| #![trigger out@[i], ld@[k]] 0 <= i < out@.len() && 0 <= k < ld@.len()
                    implies !ld@[k].ranks_before(&out@[i]) by {
                    if i < out0.len() {
                        assert(out@[i] == out0[i]);
                    } else {
                        assert(out@[i] == y);
                    }
                }
                assert forall|i: int, j: int| #![trigger rd@[i], rd@[j]] 0 <= i < j < rd@.len() implies !rd@[j].ranks_before(&rd@[i]) by {
                    assert(rd@[j] == r0[j + 1] && rd@[i] == r0[i + 1]);
                }
                lemma_multiset_commutative(out0 + l0, r0);
                lemma_multiset_commutative(out@ + l0, rd@);
                lemma_multiset_commutative(out0, l0);
                lemma_multiset_commutative(out@, l0);
                lemma_multiset_commutative(seq![y], rd@);
                assert(r0 =~= seq![y] + rd@);
                assert(out@ =~= out0.push(y));
                lemma_multiset_commutative(out0, seq![y]);
                assert(out0.push(y) =~= out0 + seq![y]);
                assert(out@ + ld@ + rd@ =~= out@ + l0 + rd@);
                broadcast use vstd::multiset::group_multiset_axioms;
            }
        } else {
            let x = ld.pop_front().unwrap();
            proof {
                assert(x == l0[0]);
                if r0.len() > 0 {
                    assert(!r0[0].ranks_before(&l0[0]));
                    assert forall|k: int| 0 <= k < r0.len() implies !(#[trigger] r0[k]).ranks_before(&x) by {
                        if k > 0 {
                            assert(!r0[k].ranks_before(&r0[0]));
                            T::lemma_not_ranks_before_transitive(&x, &r0[0], &r0[k]);
                        }
                    }
                }
            }
            out.push(x);
            proof {
                assert(ld@ =~= l0.subrange(1, l0.len() as int));
                assert forall|i: int, j: int| #![trigger out@[i], out@[j]] 0 <= i < j < out@.len() implies !out@[j].ranks_before(&out@[i]) by {
                    if j < out0.len() {
                        assert(out@[j] == out0[j] && out@[i] == out0[i]);
                    } else {
                        assert(out@[i] == out0[i]);
                        assert(l0[0] == x);
                    }
                }
                assert forall|i: int, k: int| #![trigger out@[i], ld@[k]] 0 <= i < out@.len() && 0 <= k < ld@.len()
                    implies !ld@[k].ranks_before(&out@[i]) by {
                    assert(ld@[k] == l0[k + 1]);
                    if i < out0.len() {
                        assert(out@[i] == out0[i]);
                    } else {
                        assert(out@[i] == l0[0]);
                    }
                }
                assert forall|i: int, k: int| #![trigger out@[i], rd@[k]] 0 <= i < out@.len() && 0 <= k < rd@.len()
                    implies !rd@[k].ranks_before(&out@[i]) by {
                    if i < out0.len() {
                        assert(out@[i] == out0[i]);
                    } else {
                        assert(out@[i] == x);
                    }
                }
                assert forall|i: int, j: int| #![trigger ld@[i], ld@[j]] 0 <= i < j < ld@.len() implies !ld@[j].ranks_before(&ld@[i]) by {
                    assert(ld@[j] == l0[j + 1] && ld@[i] == l0[i + 1]);
                }
                assert(out@ + ld@ + rd@ =~= out0 + l0 + r0);
            }
        }
    }
    assert(out@ + ld@ + rd@ =~= out@);
    out
}

/// Sorts `v` by the order of `T`.
pub fn rank_sort<T: Ranked>(v: Vec<T>) -> (r: Vec<T>)
    ensures
        is_ranked(r@),
        r@.to_multiset() == v@.to_multiset(),
        r@.len() == v@.len(),
    decreases v@.len(),
{
    let ghost orig = v@;
    let mut v = v;
    let n = v.len();
    if n <= 1 {
        return v;
    }
    let right = v.split_off(n / 2);
    assert(v@ + right@ =~= orig);
    let l = rank_sort(v);
    let r = rank_sort(right);
    let m = merge(l, r);
    proof {
        lemma_multiset_commutative(l@, r@);
        lemma_multiset_commutative(v@, right@);
    }
    m
}

} // verus!
