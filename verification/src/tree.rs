//! The plain binary search tree: values of a totally ordered type, no
//! rebalancing. Its abstract value is the in-order value sequence.
use crate::order::{eqv, TotalOrder};
use vstd::prelude::*;

verus! {

/// One node: a value and the two owned subtrees.
pub struct Node<T> {
    /// The node's value.
    pub val: T,
    /// Subtree of values below `val`.
    pub left_child: Option<Box<Node<T>>>,
    /// Subtree of values not below `val`.
    pub right_child: Option<Box<Node<T>>>,
}

/// An owned subtree: empty, or one node.
pub type BstLink<T> = Option<Box<Node<T>>>;

/// The in-order value sequence of a subtree.
pub open spec fn bst_seq<T>(l: BstLink<T>) -> Seq<T>
    decreases l,
{
    match l {
        None => Seq::empty(),
        Some(n) => bst_seq(n.left_child) + seq![n.val] + bst_seq(n.right_child),
    }
}

/// Values never decrease along the sequence.
pub open spec fn vals_sorted<T: TotalOrder>(s: Seq<T>) -> bool {
    forall|i: int, j: int| 0 <= i <= j < s.len() ==> #[trigger] s[i].le(#[trigger] s[j])
}

/// Some value of `s` ties with `x`.
pub open spec fn has_val<T: TotalOrder>(s: Seq<T>, x: T) -> bool {
    exists|i: int| 0 <= i < s.len() && eqv(#[trigger] s[i], x)
}

/// Every value of `s` is at or below `x`.
pub open spec fn all_le<T: TotalOrder>(s: Seq<T>, x: T) -> bool {
    forall|i: int| 0 <= i < s.len() ==> (#[trigger] s[i]).le(x)
}

/// Every value of `s` is at or above `x`.
pub open spec fn all_ge<T: TotalOrder>(s: Seq<T>, x: T) -> bool {
    forall|i: int| 0 <= i < s.len() ==> x.le(#[trigger] s[i])
}

/// The height of a subtree: empty counts zero, a node one more than its
/// taller side.
pub open spec fn bst_height<T>(l: BstLink<T>) -> nat
    decreases l,
{
    match l {
        None => 0,
        Some(n) => 1 + if bst_height(n.left_child) < bst_height(n.right_child) {
            bst_height(n.right_child)
        } else {
            bst_height(n.left_child)
        },
    }
}

/// A height clipped to what a machine word holds.
pub open spec fn capped_height<T>(l: BstLink<T>) -> usize {
    if bst_height(l) <= usize::MAX {
        bst_height(l) as usize
    } else {
        usize::MAX
    }
}

/// How the sequence of a nonempty subtree stands to its parts.
proof fn lemma_bst_parts<T>(l: BstLink<T>)
    requires
        l is Some,
    ensures
        bst_seq(l) == bst_seq(l.unwrap().left_child) + seq![l.unwrap().val] + bst_seq(
            l.unwrap().right_child,
        ),
{
}

/// A sorted `left + [pivot] + right` splits into sorted halves bounded
/// by the pivot.
proof fn lemma_vals_parts<T: TotalOrder>(a: Seq<T>, p: T, b: Seq<T>)
    requires
        vals_sorted(a + seq![p] + b),
    ensures
        vals_sorted(a),
        vals_sorted(b),
        all_le(a, p),
        all_ge(b, p),
{
    let whole = a + seq![p] + b;
    assert forall|i: int, j: int| 0 <= i <= j < a.len() implies (#[trigger] a[i]).le(
        #[trigger] a[j],
    ) by {
        assert(whole[i] == a[i] && whole[j] == a[j]);
    }
    assert forall|i: int, j: int| 0 <= i <= j < b.len() implies (#[trigger] b[i]).le(
        #[trigger] b[j],
    ) by {
        assert(whole[a.len() + 1 + i] == b[i] && whole[a.len() + 1 + j] == b[j]);
    }
    assert forall|i: int| 0 <= i < a.len() implies (#[trigger] a[i]).le(p) by {
        assert(whole[i] == a[i] && whole[a.len() as int] == p);
    }
    assert forall|i: int| 0 <= i < b.len() implies p.le(#[trigger] b[i]) by {
        assert(whole[a.len() + 1 + i] == b[i] && whole[a.len() as int] == p);
    }
}

/// Sorted halves bounded by a pivot join into a sorted
/// `left + [pivot] + right`; without the pivot the halves still join
/// sorted.
proof fn lemma_vals_join<T: TotalOrder>(a: Seq<T>, p: T, b: Seq<T>)
    requires
        vals_sorted(a),
        vals_sorted(b),
        all_le(a, p),
        all_ge(b, p),
    ensures
        vals_sorted(a + seq![p] + b),
        vals_sorted(a + b),
{
    let whole = a + seq![p] + b;
    assert forall|i: int, j: int| 0 <= i <= j < whole.len() implies (#[trigger] whole[i]).le(
        #[trigger] whole[j],
    ) by {
        let n = a.len() as int;
        if i < n && j < n {
            assert(whole[i] == a[i] && whole[j] == a[j]);
        } else if i < n && j == n {
            assert(whole[i] == a[i] && whole[j] == p);
        } else if i < n && j > n {
            assert(whole[i] == a[i] && whole[j] == b[j - n - 1]);
            T::le_trans(a[i], p, b[j - n - 1]);
        } else if i == n && j == n {
            T::le_total(p, p);
        } else if i == n && j > n {
            assert(whole[j] == b[j - n - 1]);
        } else {
            assert(whole[i] == b[i - n - 1] && whole[j] == b[j - n - 1]);
        }
    }
    let joined = a + b;
    assert forall|i: int, j: int| 0 <= i <= j < joined.len() implies (#[trigger] joined[i]).le(
        #[trigger] joined[j],
    ) by {
        let n = a.len() as int;
        if i < n && j >= n {
            assert(joined[i] == a[i] && joined[j] == b[j - n]);
            T::le_trans(a[i], p, b[j - n]);
        } else if i >= n {
            assert(joined[i] == b[i - n] && joined[j] == b[j - n]);
        } else {
            assert(joined[i] == a[i] && joined[j] == a[j]);
        }
    }
}

/// Where a tied value can sit in a sorted `left + [pivot] + right`.
proof fn lemma_val_location<T: TotalOrder>(a: Seq<T>, p: T, b: Seq<T>, x: T)
    requires
        vals_sorted(a + seq![p] + b),
    ensures
        (x.le(p) && !p.le(x)) ==> has_val(a + seq![p] + b, x) == has_val(a, x),
        (p.le(x) && !x.le(p)) ==> has_val(a + seq![p] + b, x) == has_val(b, x),
        eqv(p, x) ==> has_val(a + seq![p] + b, x),
{
    let whole = a + seq![p] + b;
    let n = a.len() as int;
    lemma_vals_parts(a, p, b);
    assert(whole[n] == p);
    if x.le(p) && !p.le(x) {
        if has_val(whole, x) {
            let i = choose|i: int| 0 <= i < whole.len() && eqv(#[trigger] whole[i], x);
            if i > n {
                assert(whole[i] == b[i - n - 1]);
                T::le_trans(p, whole[i], x);
                assert(false);
            } else if i == n {
                assert(false);
            } else {
                assert(whole[i] == a[i]);
                assert(has_val(a, x));
            }
        }
        if has_val(a, x) {
            let i = choose|i: int| 0 <= i < a.len() && eqv(#[trigger] a[i], x);
            assert(whole[i] == a[i]);
            assert(has_val(whole, x));
        }
    }
    if p.le(x) && !x.le(p) {
        if has_val(whole, x) {
            let i = choose|i: int| 0 <= i < whole.len() && eqv(#[trigger] whole[i], x);
            if i < n {
                assert(whole[i] == a[i]);
                T::le_trans(x, whole[i], p);
                assert(false);
            } else if i == n {
                assert(false);
            } else {
                assert(whole[i] == b[i - n - 1]);
                assert(has_val(b, x));
            }
        }
        if has_val(b, x) {
            let i = choose|i: int| 0 <= i < b.len() && eqv(#[trigger] b[i], x);
            assert(whole[n + 1 + i] == b[i]);
            assert(has_val(whole, x));
        }
    }
    if eqv(p, x) {
        assert(has_val(whole, x));
    }
}

impl<T: TotalOrder> Node<T> {
    /// A fresh leaf node for one value.
    pub fn new(val_in: T) -> (r: Box<Node<T>>)
        ensures
            r.val == val_in,
            r.left_child is None,
            r.right_child is None,
            bst_seq(Some(r)) == seq![val_in],
    {
        let r = Box::new(Node { val: val_in, left_child: None, right_child: None });
        proof {
            assert(bst_seq::<T>(None) =~= Seq::<T>::empty());
            assert(bst_seq(Some(r)) =~= seq![val_in]);
        }
        r
    }

    /// A node assembled from a value and two subtrees.
    pub fn new_mod(val_in: T, left_child: BstLink<T>, right_child: BstLink<T>) -> (r: Box<Node<T>>)
        ensures
            r.val == val_in,
            r.left_child == left_child,
            r.right_child == right_child,
            bst_seq(Some(r)) == bst_seq(left_child) + seq![val_in] + bst_seq(right_child),
    {
        let r = Box::new(Node { val: val_in, left_child, right_child });
        proof {
            lemma_bst_parts(Some(r));
        }
        r
    }
}

/// Inserts a value: strictly smaller goes left, anything else right, so
/// a tied value lands after every tied one already present.
fn bst_insert<T: TotalOrder>(l: BstLink<T>, val: T) -> (r: BstLink<T>)
    requires
        vals_sorted(bst_seq(l)),
    ensures
        vals_sorted(bst_seq(r)),
        bst_seq(r).len() == bst_seq(l).len() + 1,
        exists|i: int| 0 <= i <= bst_seq(l).len() && bst_seq(r) == bst_seq(l).insert(i, val),
        forall|b: T| #[trigger] all_le(bst_seq(r), b) <== all_le(bst_seq(l), b) && val.le(b),
        forall|b: T| #[trigger] all_ge(bst_seq(r), b) <== all_ge(bst_seq(l), b) && b.le(val),
    decreases l,
{
    let ghost l0 = l;
    match l {
        None => {
            let r = Some(Node::new(val));
            proof {
                T::le_total(val, val);
                assert(bst_seq(r) =~= bst_seq(l0).insert(0, val));
            }
            r
        },
        Some(n) => {
            let node = *n;
            let ghost lseq = bst_seq(node.left_child);
            let ghost rseq = bst_seq(node.right_child);
            proof {
                lemma_bst_parts(l0);
                lemma_vals_parts(lseq, node.val, rseq);
            }
            if val.lt(&node.val) {
                let newl = bst_insert(node.left_child, val);
                let ghost nseq = bst_seq(newl);
                let t = Some(Node::new_mod(node.val, newl, node.right_child));
                proof {
                    assert(all_le(nseq, node.val));
                    lemma_vals_join(nseq, node.val, rseq);
                    let i = choose|i: int| 0 <= i <= lseq.len() && nseq == lseq.insert(i, val);
                    assert(bst_seq(t) =~= bst_seq(l0).insert(i, val));
                    assert forall|b: T|
                        all_le(bst_seq(l0), b) && val.le(b) implies #[trigger] all_le(
                        bst_seq(t),
                        b,
                    ) by {
                        assert forall|j: int|
                            0 <= j < bst_seq(t).len() implies (#[trigger] bst_seq(t)[j]).le(b) by {
                            assert(bst_seq(t) == bst_seq(l0).insert(i, val));
                            if j < i {
                                assert(bst_seq(t)[j] == bst_seq(l0)[j]);
                            } else if j == i {
                                assert(bst_seq(t)[j] == val);
                            } else {
                                assert(bst_seq(t)[j] == bst_seq(l0)[j - 1]);
                            }
                        }
                    }
                    assert forall|b: T|
                        all_ge(bst_seq(l0), b) && b.le(val) implies #[trigger] all_ge(
                        bst_seq(t),
                        b,
                    ) by {
                        assert forall|j: int|
                            0 <= j < bst_seq(t).len() implies b.le(#[trigger] bst_seq(t)[j]) by {
                            assert(bst_seq(t) == bst_seq(l0).insert(i, val));
                            if j < i {
                                assert(bst_seq(t)[j] == bst_seq(l0)[j]);
                            } else if j == i {
                                assert(bst_seq(t)[j] == val);
                            } else {
                                assert(bst_seq(t)[j] == bst_seq(l0)[j - 1]);
                            }
                        }
                    }
                }
                t
            } else {
                proof {
                    T::le_total(val, node.val);
                }
                let newr = bst_insert(node.right_child, val);
                let ghost nseq = bst_seq(newr);
                let t = Some(Node::new_mod(node.val, node.left_child, newr));
                proof {
                    assert(all_ge(nseq, node.val));
                    lemma_vals_join(lseq, node.val, nseq);
                    let i = choose|i: int| 0 <= i <= rseq.len() && nseq == rseq.insert(i, val);
                    let j = lseq.len() + 1 + i;
                    assert(bst_seq(t) =~= bst_seq(l0).insert(j, val));
                    assert forall|b: T|
                        all_le(bst_seq(l0), b) && val.le(b) implies #[trigger] all_le(
                        bst_seq(t),
                        b,
                    ) by {
                        assert forall|m: int|
                            0 <= m < bst_seq(t).len() implies (#[trigger] bst_seq(t)[m]).le(b) by {
                            assert(bst_seq(t) == bst_seq(l0).insert(j, val));
                            if m < j {
                                assert(bst_seq(t)[m] == bst_seq(l0)[m]);
                            } else if m == j {
                                assert(bst_seq(t)[m] == val);
                            } else {
                                assert(bst_seq(t)[m] == bst_seq(l0)[m - 1]);
                            }
                        }
                    }
                    assert forall|b: T|
                        all_ge(bst_seq(l0), b) && b.le(val) implies #[trigger] all_ge(
                        bst_seq(t),
                        b,
                    ) by {
                        assert forall|m: int|
                            0 <= m < bst_seq(t).len() implies b.le(#[trigger] bst_seq(t)[m]) by {
                            assert(bst_seq(t) == bst_seq(l0).insert(j, val));
                            if m < j {
                                assert(bst_seq(t)[m] == bst_seq(l0)[m]);
                            } else if m == j {
                                assert(bst_seq(t)[m] == val);
                            } else {
                                assert(bst_seq(t)[m] == bst_seq(l0)[m - 1]);
                            }
                        }
                    }
                }
                t
            }
        },
    }
}

/// Whether some value of the subtree ties with `val`.
fn bst_search<T: TotalOrder>(l: &BstLink<T>, val: &T) -> (r: bool)
    requires
        vals_sorted(bst_seq(*l)),
    ensures
        r == has_val(bst_seq(*l), *val),
    decreases *l,
{
    match l {
        None => false,
        Some(n) => {
            let ghost lseq = bst_seq(n.left_child);
            let ghost rseq = bst_seq(n.right_child);
            proof {
                lemma_bst_parts(*l);
                lemma_vals_parts(lseq, n.val, rseq);
                lemma_val_location(lseq, n.val, rseq, *val);
            }
            if val.lt(&n.val) {
                bst_search(&n.left_child, val)
            } else if n.val.lt(val) {
                bst_search(&n.right_child, val)
            } else {
                proof {
                    T::le_total(*val, n.val);
                    assert(eqv(n.val, *val));
                }
                true
            }
        },
    }
}

/// Detaches the smallest value of a nonempty subtree.
fn bst_take_min<T: TotalOrder>(l: BstLink<T>) -> (r: (BstLink<T>, T))
    requires
        l is Some,
    ensures
        bst_seq(l) == seq![r.1] + bst_seq(r.0),
    decreases l,
{
    let ghost l0 = l;
    let node = *l.unwrap();
    proof {
        lemma_bst_parts(l0);
    }
    match node.left_child {
        None => {
            proof {
                assert(bst_seq(l0) =~= seq![node.val] + bst_seq(node.right_child));
            }
            (node.right_child, node.val)
        },
        Some(lc) => {
            let taken = bst_take_min(Some(lc));
            let rest = Some(Node::new_mod(node.val, taken.0, node.right_child));
            proof {
                assert(bst_seq(l0) =~= seq![taken.1] + bst_seq(rest));
            }
            (rest, taken.1)
        },
    }
}

/// Deletes one value that ties with `val`, if any ties: a node with at
/// most one subtree is spliced out, a full node takes its in-order
/// successor's value in its place.
fn bst_delete<T: TotalOrder>(l: BstLink<T>, val: &T) -> (r: BstLink<T>)
    requires
        vals_sorted(bst_seq(l)),
    ensures
        vals_sorted(bst_seq(r)),
        has_val(bst_seq(l), *val) ==> exists|i: int|
            0 <= i < bst_seq(l).len() && eqv(#[trigger] bst_seq(l)[i], *val) && bst_seq(r)
                == bst_seq(l).remove(i),
        !has_val(bst_seq(l), *val) ==> bst_seq(r) == bst_seq(l),
    decreases l,
{
    let ghost l0 = l;
    match l {
        None => None,
        Some(n) => {
            let node = *n;
            let ghost lseq = bst_seq(node.left_child);
            let ghost rseq = bst_seq(node.right_child);
            proof {
                lemma_bst_parts(l0);
                lemma_vals_parts(lseq, node.val, rseq);
                lemma_val_location(lseq, node.val, rseq, *val);
            }
            if val.lt(&node.val) {
                let newl = bst_delete(node.left_child, val);
                let ghost nseq = bst_seq(newl);
                let t = Some(Node::new_mod(node.val, newl, node.right_child));
                proof {
                    if has_val(lseq, *val) {
                        let i = choose|i: int|
                            0 <= i < lseq.len() && eqv(#[trigger] lseq[i], *val) && nseq
                                == lseq.remove(i);
                        assert forall|j: int|
                            0 <= j < nseq.len() implies (#[trigger] nseq[j]).le(node.val) by {
                            if j < i {
                                assert(nseq[j] == lseq[j]);
                            } else {
                                assert(nseq[j] == lseq[j + 1]);
                            }
                        }
                        assert(bst_seq(l0)[i] == lseq[i]);
                        assert(bst_seq(t) =~= bst_seq(l0).remove(i));
                    }
                    lemma_vals_join(nseq, node.val, rseq);
                }
                t
            } else if node.val.lt(val) {
                let newr = bst_delete(node.right_child, val);
                let ghost nseq = bst_seq(newr);
                let t = Some(Node::new_mod(node.val, node.left_child, newr));
                proof {
                    if has_val(rseq, *val) {
                        let i = choose|i: int|
                            0 <= i < rseq.len() && eqv(#[trigger] rseq[i], *val) && nseq
                                == rseq.remove(i);
                        assert forall|j: int|
                            0 <= j < nseq.len() implies node.val.le(#[trigger] nseq[j]) by {
                            if j < i {
                                assert(nseq[j] == rseq[j]);
                            } else {
                                assert(nseq[j] == rseq[j + 1]);
                            }
                        }
                        let k = lseq.len() + 1 + i;
                        assert(bst_seq(l0)[k] == rseq[i]);
                        assert(bst_seq(t) =~= bst_seq(l0).remove(k));
                    }
                    lemma_vals_join(lseq, node.val, nseq);
                }
                t
            } else {
                proof {
                    T::le_total(*val, node.val);
                    assert(eqv(node.val, *val));
                    assert(bst_seq(l0)[lseq.len() as int] == node.val);
                }
                match (node.left_child, node.right_child) {
                    (None, None) => {
                        proof {
                            assert(bst_seq(l0).remove(0) =~= Seq::<T>::empty());
                        }
                        None
                    },
                    (Some(lc), None) => {
                        proof {
                            assert(bst_seq(Some(lc)) =~= bst_seq(l0).remove(lseq.len() as int));
                        }
                        Some(lc)
                    },
                    (None, Some(rc)) => {
                        proof {
                            assert(bst_seq(Some(rc)) =~= bst_seq(l0).remove(0));
                        }
                        Some(rc)
                    },
                    (Some(lc), Some(rc)) => {
                        let taken = bst_take_min(Some(rc));
                        let ghost nseq = bst_seq(taken.0);
                        let t = Some(Node::new_mod(taken.1, Some(lc), taken.0));
                        proof {
                            assert(rseq == seq![taken.1] + nseq);
                            assert(rseq[0] == taken.1);
                            assert(node.val.le(rseq[0]));
                            assert(node.val.le(taken.1));
                            assert forall|j: int|
                                0 <= j < nseq.len() implies taken.1.le(#[trigger] nseq[j]) by {
                                assert(nseq[j] == rseq[j + 1]);
                            }
                            assert forall|j: int|
                                0 <= j < lseq.len() implies (#[trigger] lseq[j]).le(taken.1) by {
                                T::le_trans(lseq[j], node.val, taken.1);
                            }
                            assert(Seq::<T>::empty() + seq![taken.1] + nseq =~= rseq);
                            lemma_vals_parts(Seq::<T>::empty(), taken.1, nseq);
                            lemma_vals_join(lseq, taken.1, nseq);
                            assert(bst_seq(t) =~= bst_seq(l0).remove(lseq.len() as int));
                        }
                        t
                    },
                }
            }
        },
    }
}

/// The smallest value of a subtree: the leftmost node's.
fn bst_min<'a, T: TotalOrder>(l: &'a BstLink<T>) -> (r: Option<&'a T>)
    ensures
        match r {
            Some(m) => bst_seq(*l).len() > 0 && *m == bst_seq(*l)[0],
            None => bst_seq(*l).len() == 0,
        },
    decreases *l,
{
    match l {
        None => None,
        Some(n) => {
            proof {
                lemma_bst_parts(*l);
            }
            match bst_min(&n.left_child) {
                Some(m) => {
                    proof {
                        assert(bst_seq(*l)[0] == bst_seq(n.left_child)[0]);
                    }
                    Some(m)
                },
                None => {
                    proof {
                        assert(bst_seq(*l)[0] == n.val);
                    }
                    Some(&n.val)
                },
            }
        },
    }
}

/// The largest value of a subtree: the rightmost node's.
fn bst_max<'a, T: TotalOrder>(l: &'a BstLink<T>) -> (r: Option<&'a T>)
    ensures
        match r {
            Some(m) => bst_seq(*l).len() > 0 && *m == bst_seq(*l)[bst_seq(*l).len() - 1],
            None => bst_seq(*l).len() == 0,
        },
    decreases *l,
{
    match l {
        None => None,
        Some(n) => {
            proof {
                lemma_bst_parts(*l);
            }
            match bst_max(&n.right_child) {
                Some(m) => {
                    proof {
                        let rseq = bst_seq(n.right_child);
                        assert(bst_seq(*l)[bst_seq(*l).len() - 1] == rseq[rseq.len() - 1]);
                    }
                    Some(m)
                },
                None => {
                    proof {
                        assert(bst_seq(*l)[bst_seq(*l).len() - 1] == n.val);
                    }
                    Some(&n.val)
                },
            }
        },
    }
}

/// The height of a subtree, clipped at the largest machine word.
fn bst_height_exec<T: TotalOrder>(l: &BstLink<T>) -> (r: usize)
    ensures
        r == capped_height(*l),
    decreases *l,
{
    match l {
        None => 0,
        Some(n) => {
            let lh = bst_height_exec(&n.left_child);
            let rh = bst_height_exec(&n.right_child);
            let tall = if lh < rh {
                rh
            } else {
                lh
            };
            if tall == usize::MAX {
                tall
            } else {
                tall + 1
            }
        },
    }
}

/// The plain binary search tree over a totally ordered value type. Its
/// abstract value is the in-order value sequence `self@`; `well_formed`
/// says the sequence never decreases.
pub struct Tree<T: TotalOrder> {
    root: BstLink<T>,
}

impl<T: TotalOrder> View for Tree<T> {
    type V = Seq<T>;

    closed spec fn view(&self) -> Seq<T> {
        bst_seq(self.root)
    }
}

impl<T: TotalOrder> Tree<T> {
    /// The tree's standing invariant: values in order.
    pub closed spec fn well_formed(self) -> bool {
        vals_sorted(bst_seq(self.root))
    }

    /// An empty tree.
    pub fn new() -> (t: Self)
        ensures
            t.well_formed(),
            t@ == Seq::<T>::empty(),
    {
        let t = Tree { root: None };
        proof {
            assert(bst_seq(t.root) =~= Seq::<T>::empty());
        }
        t
    }

    /// Adds one value, after every tied value already present.
    pub fn insert(&mut self, val: T)
        requires
            old(self).well_formed(),
        ensures
            final(self).well_formed(),
            final(self)@.len() == old(self)@.len() + 1,
            exists|i: int| 0 <= i <= old(self)@.len() && final(self)@ == old(self)@.insert(i, val),
    {
        let ghost oldseq = bst_seq(self.root);
        let root = self.root.take();
        self.root = bst_insert(root, val);
        proof {
            let i = choose|i: int| 0 <= i <= oldseq.len() && bst_seq(self.root) == oldseq.insert(i, val);
            assert(final(self)@ == old(self)@.insert(i, val));
        }
    }

    /// Whether some value ties with `val`.
    pub fn does_exist(&self, val: T) -> (r: bool)
        requires
            self.well_formed(),
        ensures
            r == has_val(self@, val),
    {
        bst_search(&self.root, &val)
    }

    /// Deletes one value that ties with `val`; a missing value changes
    /// nothing.
    pub fn delete(&mut self, val: T)
        requires
            old(self).well_formed(),
        ensures
            final(self).well_formed(),
            has_val(old(self)@, val) ==> final(self)@.len() == old(self)@.len() - 1
                && exists|i: int|
                0 <= i < old(self)@.len() && eqv(#[trigger] old(self)@[i], val) && final(self)@
                    == old(self)@.remove(i),
            !has_val(old(self)@, val) ==> final(self)@ == old(self)@,
    {
        let root = self.root.take();
        self.root = bst_delete(root, &val);
    }

    /// Empties the tree.
    pub fn clear(&mut self)
        ensures
            final(self).well_formed(),
            final(self)@ == Seq::<T>::empty(),
    {
        self.root = None;
        proof {
            assert(bst_seq(final(self).root) =~= Seq::<T>::empty());
        }
    }

    /// The smallest value, or nothing in an empty tree.
    pub fn min(&self) -> (r: Option<&T>)
        requires
            self.well_formed(),
        ensures
            match r {
                Some(m) => self@.len() > 0 && *m == self@[0],
                None => self@.len() == 0,
            },
    {
        bst_min(&self.root)
    }

    /// The largest value, or nothing in an empty tree.
    pub fn max(&self) -> (r: Option<&T>)
        requires
            self.well_formed(),
        ensures
            match r {
                Some(m) => self@.len() > 0 && *m == self@[self@.len() - 1],
                None => self@.len() == 0,
            },
    {
        bst_max(&self.root)
    }

    /// The tree's height: zero when empty, else one more than the
    /// taller subtree.
    pub closed spec fn spec_height(self) -> nat {
        bst_height(self.root)
    }

    /// The tree's height, clipped at the largest machine word.
    pub fn height(&self) -> (r: usize)
        ensures
            self.spec_height() <= usize::MAX ==> r == self.spec_height(),
            self.spec_height() > usize::MAX ==> r == usize::MAX,
    {
        bst_height_exec(&self.root)
    }
}

} // verus!
