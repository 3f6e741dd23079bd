//! The self-balancing ordered tree: a red-black tree keyed by a totally
//! ordered key type, one value per node, duplicate keys allowed.
//!
//! Balancing is structural: every operation rebuilds the nodes along its
//! search path, and a local rearrangement at each rebuilt node restores
//! the red-black rules, so no node needs a back-reference to its parent.
//! The tree's abstract value is its in-order entry sequence; every
//! operation's contract speaks of that sequence.
use crate::order::{eqv, Dup, TotalOrder};
use vstd::prelude::*;
use vstd::seq_lib::to_multiset_insert;

verus! {

/// The color of one node.
#[derive(Clone, Copy, PartialEq, Eq, Structural, Debug)]
pub enum Color {
    Red,
    Black,
}

/// One node: an entry, a color, and the two owned subtrees.
pub struct RbNode<K, V> {
    /// The entry's key.
    pub key: K,
    /// The entry's value.
    pub val: V,
    /// The node's color.
    pub color: Color,
    /// Subtree of keys not above `key`.
    pub left: Option<Box<RbNode<K, V>>>,
    /// Subtree of keys not below `key`.
    pub right: Option<Box<RbNode<K, V>>>,
}

/// An owned subtree: empty, or one node.
pub type Link<K, V> = Option<Box<RbNode<K, V>>>;

/// The in-order entry sequence of a subtree.
pub open spec fn link_seq<K, V>(l: Link<K, V>) -> Seq<(K, V)>
    decreases l,
{
    match l {
        None => Seq::empty(),
        Some(n) => link_seq(n.left) + seq![(n.key, n.val)] + link_seq(n.right),
    }
}

/// The color of a subtree's top node; an empty subtree counts black.
pub open spec fn link_color<K, V>(l: Link<K, V>) -> Color {
    match l {
        None => Color::Black,
        Some(n) => n.color,
    }
}

/// How many black nodes stand on the path from the top to the leftmost
/// empty slot.
pub open spec fn black_height<K, V>(l: Link<K, V>) -> nat
    decreases l,
{
    match l {
        None => 0,
        Some(n) => black_height(n.left) + if n.color == Color::Black {
            1nat
        } else {
            0nat
        },
    }
}

/// The color rules hold throughout: no red node has a red child, and
/// both subtrees of every node carry the same black height.
pub open spec fn rb_ok<K, V>(l: Link<K, V>) -> bool
    decreases l,
{
    match l {
        None => true,
        Some(n) => rb_ok(n.left) && rb_ok(n.right) && black_height(n.left) == black_height(n.right)
            && (n.color == Color::Red ==> link_color(n.left) == Color::Black && link_color(n.right)
            == Color::Black),
    }
}

/// The color rules hold in both subtrees, but the top node itself may
/// be red with a red child: the transient shape the rebalancing steps
/// pass upward.
pub open spec fn near_rb_ok<K, V>(l: Link<K, V>) -> bool {
    match l {
        None => true,
        Some(n) => rb_ok(n.left) && rb_ok(n.right) && black_height(n.left) == black_height(
            n.right,
        ),
    }
}

/// Entry keys never decrease along the sequence.
pub open spec fn entries_sorted<K: TotalOrder, V>(s: Seq<(K, V)>) -> bool {
    forall|i: int, j: int| 0 <= i <= j < s.len() ==> #[trigger] s[i].0.le(#[trigger] s[j].0)
}

/// Some entry of `s` ties with `k`.
pub open spec fn has_key<K: TotalOrder, V>(s: Seq<(K, V)>, k: K) -> bool {
    exists|i: int| 0 <= i < s.len() && eqv(#[trigger] s[i].0, k)
}

/// Every entry key of `s` is at or below `k`.
pub open spec fn all_keys_le<K: TotalOrder, V>(s: Seq<(K, V)>, k: K) -> bool {
    forall|i: int| 0 <= i < s.len() ==> #[trigger] s[i].0.le(k)
}

/// Every entry key of `s` is at or above `k`.
pub open spec fn all_keys_ge<K: TotalOrder, V>(s: Seq<(K, V)>, k: K) -> bool {
    forall|i: int| 0 <= i < s.len() ==> k.le(#[trigger] s[i].0)
}

/// A sorted `left + [pivot] + right` splits into sorted halves bounded
/// by the pivot.
proof fn lemma_sorted_parts<K: TotalOrder, V>(a: Seq<(K, V)>, p: (K, V), b: Seq<(K, V)>)
    requires
        entries_sorted(a + seq![p] + b),
    ensures
        entries_sorted(a),
        entries_sorted(b),
        all_keys_le(a, p.0),
        all_keys_ge(b, p.0),
{
    let whole = a + seq![p] + b;
    assert forall|i: int, j: int| 0 <= i <= j < a.len() implies #[trigger] a[i].0.le(
        #[trigger] a[j].0,
    ) by {
        assert(whole[i] == a[i] && whole[j] == a[j]);
    }
    assert forall|i: int, j: int| 0 <= i <= j < b.len() implies #[trigger] b[i].0.le(
        #[trigger] b[j].0,
    ) by {
        assert(whole[a.len() + 1 + i] == b[i] && whole[a.len() + 1 + j] == b[j]);
    }
    assert forall|i: int| 0 <= i < a.len() implies #[trigger] a[i].0.le(p.0) by {
        assert(whole[i] == a[i] && whole[a.len() as int] == p);
    }
    assert forall|i: int| 0 <= i < b.len() implies p.0.le(#[trigger] b[i].0) by {
        assert(whole[a.len() + 1 + i] == b[i] && whole[a.len() as int] == p);
    }
}

/// Sorted halves bounded by a pivot join into a sorted
/// `left + [pivot] + right`.
proof fn lemma_sorted_join<K: TotalOrder, V>(a: Seq<(K, V)>, p: (K, V), b: Seq<(K, V)>)
    requires
        entries_sorted(a),
        entries_sorted(b),
        all_keys_le(a, p.0),
        all_keys_ge(b, p.0),
    ensures
        entries_sorted(a + seq![p] + b),
{
    let whole = a + seq![p] + b;
    assert forall|i: int, j: int| 0 <= i <= j < whole.len() implies #[trigger] whole[i].0.le(
        #[trigger] whole[j].0,
    ) by {
        let n = a.len() as int;
        if i < n && j < n {
            assert(whole[i] == a[i] && whole[j] == a[j]);
        } else if i < n && j == n {
            assert(whole[i] == a[i] && whole[j] == p);
        } else if i < n && j > n {
            assert(whole[i] == a[i] && whole[j] == b[j - n - 1]);
            K::le_trans(a[i].0, p.0, b[j - n - 1].0);
        } else if i == n && j == n {
            K::le_total(p.0, p.0);
        } else if i == n && j > n {
            assert(whole[j] == b[j - n - 1]);
        } else {
            assert(whole[i] == b[i - n - 1] && whole[j] == b[j - n - 1]);
        }
    }
}

/// Sorted halves bounded by a pivot also join into a sorted
/// `left + right` when the pivot itself is dropped.
proof fn lemma_sorted_join_no_pivot<K: TotalOrder, V>(a: Seq<(K, V)>, p: (K, V), b: Seq<(K, V)>)
    requires
        entries_sorted(a),
        entries_sorted(b),
        all_keys_le(a, p.0),
        all_keys_ge(b, p.0),
    ensures
        entries_sorted(a + b),
{
    let whole = a + b;
    assert forall|i: int, j: int| 0 <= i <= j < whole.len() implies #[trigger] whole[i].0.le(
        #[trigger] whole[j].0,
    ) by {
        let n = a.len() as int;
        if i < n && j >= n {
            assert(whole[i] == a[i] && whole[j] == b[j - n]);
            K::le_trans(a[i].0, p.0, b[j - n].0);
        } else if i >= n {
            assert(whole[i] == b[i - n] && whole[j] == b[j - n]);
        } else {
            assert(whole[i] == a[i] && whole[j] == a[j]);
        }
    }
}

/// True exactly when the subtree's top node is red.
fn is_red<K, V>(l: &Link<K, V>) -> (r: bool)
    ensures
        r == (link_color(*l) == Color::Red),
{
    match l {
        Some(n) => n.color == Color::Red,
        None => false,
    }
}

/// How the measures of a nonempty subtree stand to those of its parts:
/// one unfolding of each, packaged for the rebalancing proofs.
proof fn lemma_link_parts<K, V>(l: Link<K, V>)
    requires
        l is Some,
    ensures
        link_seq(l) == link_seq(l.unwrap().left) + seq![(l.unwrap().key, l.unwrap().val)]
            + link_seq(l.unwrap().right),
        link_color(l) == l.unwrap().color,
        black_height(l) == black_height(l.unwrap().left) + (if l.unwrap().color == Color::Black {
            1nat
        } else {
            0nat
        }),
        rb_ok(l) == (rb_ok(l.unwrap().left) && rb_ok(l.unwrap().right) && black_height(
            l.unwrap().left,
        ) == black_height(l.unwrap().right) && (l.unwrap().color == Color::Red ==> link_color(
            l.unwrap().left,
        ) == Color::Black && link_color(l.unwrap().right) == Color::Black)),
        near_rb_ok(l) == (rb_ok(l.unwrap().left) && rb_ok(l.unwrap().right) && black_height(
            l.unwrap().left,
        ) == black_height(l.unwrap().right)),
{
}

/// Builds one node and hands back how every measure of the result
/// stands to the parts; the rebalancing steps reason only through this.
fn mk_node<K: TotalOrder, V>(color: Color, left: Link<K, V>, key: K, value: V, right: Link<
    K,
    V,
>) -> (t: Link<K, V>)
    ensures
        link_seq(t) == link_seq(left) + seq![(key, value)] + link_seq(right),
        link_color(t) == color,
        black_height(t) == black_height(left) + (if color == Color::Black {
            1nat
        } else {
            0nat
        }),
        rb_ok(t) == (rb_ok(left) && rb_ok(right) && black_height(left) == black_height(right) && (
        color == Color::Red ==> link_color(left) == Color::Black && link_color(right)
            == Color::Black)),
        near_rb_ok(t) == (rb_ok(left) && rb_ok(right) && black_height(left) == black_height(
            right,
        )),
        t is Some,
{
    let t = Some(Box::new(RbNode { key, val: value, color, left, right }));
    proof {
        lemma_link_parts(t);
    }
    t
}

impl<K: TotalOrder, V> RbNode<K, V> {
    /// A fresh node for one entry: red, with empty subtrees, ready to be
    /// attached by `insert`.
    pub fn new(key: K, val: V) -> (r: Link<K, V>)
        ensures
            r matches Some(n) && n.key == key && n.val == val && n.color == Color::Red
                && n.left is None && n.right is None,
            link_seq(r) == seq![(key, val)],
            rb_ok(r),
            black_height(r) == 0,
    {
        let node = RbNode { key, val, color: Color::Red, left: None, right: None };
        let r = Some(Box::new(node));
        proof {
            lemma_link_parts(r);
            assert(link_seq(r) =~= seq![(key, val)]);
        }
        r
    }
}

/// Rebuilds a black node whose left subtree may carry a red-red pair at
/// its top after an insertion; the local rearrangement restores the
/// color rules.
fn balance_left<K: TotalOrder, V>(l: Link<K, V>, key: K, value: V, r: Link<K, V>) -> (t: Link<
    K,
    V,
>)
    requires
        near_rb_ok(l),
        rb_ok(r),
        black_height(l) == black_height(r),
    ensures
        rb_ok(t),
        black_height(t) == black_height(l) + 1,
        link_seq(t) == link_seq(l) + seq![(key, value)] + link_seq(r),
{
    let ghost l0 = l;
    if is_red(&l) {
        proof {
            lemma_link_parts(l0);
        }
        let lnode = *l.unwrap();
        proof {
            if lnode.left is Some {
                lemma_link_parts(lnode.left);
            }
            if lnode.right is Some {
                lemma_link_parts(lnode.right);
            }
        }
        if is_red(&lnode.left) {
            let llnode = *lnode.left.unwrap();
            let newl = mk_node(Color::Black, llnode.left, llnode.key, llnode.val, llnode.right);
            let newr = mk_node(Color::Black, lnode.right, key, value, r);
            let t = mk_node(Color::Red, newl, lnode.key, lnode.val, newr);
            proof {
                assert(link_seq(t) =~= link_seq(l0) + seq![(key, value)] + link_seq(r));
            }
            t
        } else if is_red(&lnode.right) {
            let lrnode = *lnode.right.unwrap();
            let newl = mk_node(Color::Black, lnode.left, lnode.key, lnode.val, lrnode.left);
            let newr = mk_node(Color::Black, lrnode.right, key, value, r);
            let t = mk_node(Color::Red, newl, lrnode.key, lrnode.val, newr);
            proof {
                assert(link_seq(t) =~= link_seq(l0) + seq![(key, value)] + link_seq(r));
            }
            t
        } else {
            let rebuilt = Some(Box::new(lnode));
            proof {
                lemma_link_parts(rebuilt);
            }
            let t = mk_node(Color::Black, rebuilt, key, value, r);
            t
        }
    } else {
        let t = mk_node(Color::Black, l, key, value, r);
        t
    }
}

/// Rebuilds a black node whose right subtree may carry a red-red pair at
/// its top after an insertion; the mirror image of `balance_left`.
fn balance_right<K: TotalOrder, V>(l: Link<K, V>, key: K, value: V, r: Link<K, V>) -> (t: Link<
    K,
    V,
>)
    requires
        rb_ok(l),
        near_rb_ok(r),
        black_height(l) == black_height(r),
    ensures
        rb_ok(t),
        black_height(t) == black_height(l) + 1,
        link_seq(t) == link_seq(l) + seq![(key, value)] + link_seq(r),
{
    let ghost r0 = r;
    if is_red(&r) {
        proof {
            lemma_link_parts(r0);
        }
        let rnode = *r.unwrap();
        proof {
            if rnode.left is Some {
                lemma_link_parts(rnode.left);
            }
            if rnode.right is Some {
                lemma_link_parts(rnode.right);
            }
        }
        if is_red(&rnode.right) {
            let rrnode = *rnode.right.unwrap();
            let newl = mk_node(Color::Black, l, key, value, rnode.left);
            let newr = mk_node(Color::Black, rrnode.left, rrnode.key, rrnode.val, rrnode.right);
            let t = mk_node(Color::Red, newl, rnode.key, rnode.val, newr);
            proof {
                assert(link_seq(t) =~= link_seq(l) + seq![(key, value)] + link_seq(r0));
            }
            t
        } else if is_red(&rnode.left) {
            let rlnode = *rnode.left.unwrap();
            let newl = mk_node(Color::Black, l, key, value, rlnode.left);
            let newr = mk_node(Color::Black, rlnode.right, rnode.key, rnode.val, rnode.right);
            let t = mk_node(Color::Red, newl, rlnode.key, rlnode.val, newr);
            proof {
                assert(link_seq(t) =~= link_seq(l) + seq![(key, value)] + link_seq(r0));
            }
            t
        } else {
            let rebuilt = Some(Box::new(rnode));
            proof {
                lemma_link_parts(rebuilt);
            }
            let t = mk_node(Color::Black, l, key, value, rebuilt);
            t
        }
    } else {
        let t = mk_node(Color::Black, l, key, value, r);
        t
    }
}

/// A bound above both halves and the pivot bounds the joined sequence.
proof fn lemma_bound_join_le<K: TotalOrder, V>(a: Seq<(K, V)>, p: (K, V), b: Seq<(K, V)>, k: K)
    requires
        all_keys_le(a, k),
        p.0.le(k),
        all_keys_le(b, k),
    ensures
        all_keys_le(a + seq![p] + b, k),
{
    let whole = a + seq![p] + b;
    assert forall|i: int| 0 <= i < whole.len() implies #[trigger] whole[i].0.le(k) by {
        let n = a.len() as int;
        if i < n {
            assert(whole[i] == a[i]);
        } else if i == n {
            assert(whole[i] == p);
        } else {
            assert(whole[i] == b[i - n - 1]);
        }
    }
}

/// A bound below both halves and the pivot bounds the joined sequence.
proof fn lemma_bound_join_ge<K: TotalOrder, V>(a: Seq<(K, V)>, p: (K, V), b: Seq<(K, V)>, k: K)
    requires
        all_keys_ge(a, k),
        k.le(p.0),
        all_keys_ge(b, k),
    ensures
        all_keys_ge(a + seq![p] + b, k),
{
    let whole = a + seq![p] + b;
    assert forall|i: int| 0 <= i < whole.len() implies k.le(#[trigger] whole[i].0) by {
        let n = a.len() as int;
        if i < n {
            assert(whole[i] == a[i]);
        } else if i == n {
            assert(whole[i] == p);
        } else {
            assert(whole[i] == b[i - n - 1]);
        }
    }
}

/// A bound on a joined sequence bounds both halves and the pivot.
proof fn lemma_bound_parts<K: TotalOrder, V>(a: Seq<(K, V)>, p: (K, V), b: Seq<(K, V)>, k: K)
    ensures
        all_keys_le(a + seq![p] + b, k) ==> all_keys_le(a, k) && p.0.le(k) && all_keys_le(b, k),
        all_keys_ge(a + seq![p] + b, k) ==> all_keys_ge(a, k) && k.le(p.0) && all_keys_ge(b, k),
{
    let whole = a + seq![p] + b;
    let n = a.len() as int;
    assert(whole[n] == p);
    if all_keys_le(whole, k) {
        assert forall|i: int| 0 <= i < a.len() implies #[trigger] a[i].0.le(k) by {
            assert(whole[i] == a[i]);
        }
        assert forall|i: int| 0 <= i < b.len() implies #[trigger] b[i].0.le(k) by {
            assert(whole[n + 1 + i] == b[i]);
        }
    }
    if all_keys_ge(whole, k) {
        assert forall|i: int| 0 <= i < a.len() implies k.le(#[trigger] a[i].0) by {
            assert(whole[i] == a[i]);
        }
        assert forall|i: int| 0 <= i < b.len() implies k.le(#[trigger] b[i].0) by {
            assert(whole[n + 1 + i] == b[i]);
        }
    }
}

/// Inserts an entry into a subtree: descends left on strictly smaller
/// keys, right otherwise (so an equal key lands after every equal entry),
/// attaches a red node, and rebalances each rebuilt black node on the
/// way up. The top of the result may transiently be a red-red pair.
fn ins_link<K: TotalOrder, V>(l: Link<K, V>, key: K, value: V) -> (r: Link<K, V>)
    requires
        rb_ok(l),
        entries_sorted(link_seq(l)),
    ensures
        near_rb_ok(r),
        link_color(l) == Color::Black ==> rb_ok(r),
        black_height(r) == black_height(l),
        entries_sorted(link_seq(r)),
        link_seq(r).len() == link_seq(l).len() + 1,
        exists|i: int|
            0 <= i <= link_seq(l).len() && link_seq(r) == link_seq(l).insert(i, (key, value)) && (
            forall|j: int| i <= j < link_seq(l).len() ==> !eqv((#[trigger] link_seq(l)[j]).0, key)),
        forall|b: K|
            #[trigger] all_keys_le(link_seq(r), b) <== all_keys_le(link_seq(l), b) && key.le(b),
        forall|b: K|
            #[trigger] all_keys_ge(link_seq(r), b) <== all_keys_ge(link_seq(l), b) && b.le(key),
    decreases l,
{
    let ghost l0 = l;
    match l {
        None => {
            let r = RbNode::new(key, value);
            proof {
                K::le_total(key, key);
                assert(link_seq(r) =~= link_seq(l0).insert(0, (key, value)));
                assert forall|b: K|
                    all_keys_le(link_seq(l0), b) && key.le(b) implies #[trigger] all_keys_le(
                    link_seq(r),
                    b,
                ) by {}
                assert forall|b: K|
                    all_keys_ge(link_seq(l0), b) && b.le(key) implies #[trigger] all_keys_ge(
                    link_seq(r),
                    b,
                ) by {}
            }
            r
        },
        Some(n) => {
            let node = *n;
            let ghost lseq = link_seq(node.left);
            let ghost rseq = link_seq(node.right);
            let ghost pivot = (node.key, node.val);
            proof {
                lemma_link_parts(l0);
                lemma_sorted_parts(lseq, pivot, rseq);
            }
            if key.lt(&node.key) {
                let newl = ins_link(node.left, key, value);
                let ghost nseq = link_seq(newl);
                let t = if node.color == Color::Black {
                    balance_left(newl, node.key, node.val, node.right)
                } else {
                    mk_node(Color::Red, newl, node.key, node.val, node.right)
                };
                proof {
                    assert(all_keys_le(nseq, node.key));
                    lemma_sorted_join(nseq, pivot, rseq);
                    let i = choose|i: int|
                        0 <= i <= lseq.len() && nseq == lseq.insert(i, (key, value)) && (
                        forall|j: int| i <= j < lseq.len() ==> !eqv((#[trigger] lseq[j]).0, key));
                    assert(nseq + seq![pivot] + rseq =~= (lseq + seq![pivot] + rseq).insert(
                        i,
                        (key, value),
                    ));
                    assert forall|j: int|
                        i <= j < link_seq(l0).len() implies !eqv(
                        (#[trigger] link_seq(l0)[j]).0,
                        key,
                    ) by {
                        if j < lseq.len() {
                            assert(link_seq(l0)[j] == lseq[j]);
                        } else if j == lseq.len() {
                            assert(link_seq(l0)[j] == pivot);
                        } else {
                            assert(link_seq(l0)[j] == rseq[j - lseq.len() - 1]);
                            if rseq[j - lseq.len() - 1].0.le(key) {
                                K::le_trans(node.key, rseq[j - lseq.len() - 1].0, key);
                            }
                        }
                    }
                    assert forall|b: K|
                        all_keys_le(link_seq(l0), b) && key.le(b) implies #[trigger] all_keys_le(
                        link_seq(t),
                        b,
                    ) by {
                        lemma_bound_parts(lseq, pivot, rseq, b);
                        assert(all_keys_le(nseq, b));
                        lemma_bound_join_le(nseq, pivot, rseq, b);
                    }
                    assert forall|b: K|
                        all_keys_ge(link_seq(l0), b) && b.le(key) implies #[trigger] all_keys_ge(
                        link_seq(t),
                        b,
                    ) by {
                        lemma_bound_parts(lseq, pivot, rseq, b);
                        assert(all_keys_ge(nseq, b));
                        lemma_bound_join_ge(nseq, pivot, rseq, b);
                    }
                }
                t
            } else {
                proof {
                    K::le_total(key, node.key);
                }
                let newr = ins_link(node.right, key, value);
                let ghost nseq = link_seq(newr);
                let t = if node.color == Color::Black {
                    balance_right(node.left, node.key, node.val, newr)
                } else {
                    mk_node(Color::Red, node.left, node.key, node.val, newr)
                };
                proof {
                    assert(all_keys_ge(nseq, node.key));
                    lemma_sorted_join(lseq, pivot, nseq);
                    let i = choose|i: int|
                        0 <= i <= rseq.len() && nseq == rseq.insert(i, (key, value)) && (
                        forall|j: int| i <= j < rseq.len() ==> !eqv((#[trigger] rseq[j]).0, key));
                    assert(lseq + seq![pivot] + nseq =~= (lseq + seq![pivot] + rseq).insert(
                        lseq.len() + 1 + i,
                        (key, value),
                    ));
                    assert forall|j: int|
                        lseq.len() + 1 + i <= j < link_seq(l0).len() implies !eqv(
                        (#[trigger] link_seq(l0)[j]).0,
                        key,
                    ) by {
                        assert(link_seq(l0)[j] == rseq[j - lseq.len() - 1]);
                    }
                    assert forall|b: K|
                        all_keys_le(link_seq(l0), b) && key.le(b) implies #[trigger] all_keys_le(
                        link_seq(t),
                        b,
                    ) by {
                        lemma_bound_parts(lseq, pivot, rseq, b);
                        assert(all_keys_le(nseq, b));
                        lemma_bound_join_le(lseq, pivot, nseq, b);
                    }
                    assert forall|b: K|
                        all_keys_ge(link_seq(l0), b) && b.le(key) implies #[trigger] all_keys_ge(
                        link_seq(t),
                        b,
                    ) by {
                        lemma_bound_parts(lseq, pivot, rseq, b);
                        assert(all_keys_ge(nseq, b));
                        lemma_bound_join_ge(lseq, pivot, nseq, b);
                    }
                }
                t
            }
        },
    }
}

/// Repaints the top node black, the final step of insertion and
/// deletion: a transient red-red pair at the top becomes legal, and the
/// black height grows by at most one.
fn make_black<K: TotalOrder, V>(l: Link<K, V>) -> (r: Link<K, V>)
    requires
        near_rb_ok(l),
    ensures
        rb_ok(r),
        link_color(r) == Color::Black,
        link_seq(r) == link_seq(l),
{
    match l {
        None => None,
        Some(n) => {
            let mut node = *n;
            node.color = Color::Black;
            let r = Some(Box::new(node));
            proof {
                reveal_with_fuel(link_seq, 2);
                reveal_with_fuel(rb_ok, 2);
                reveal_with_fuel(black_height, 2);
                assert(link_seq(r) =~= link_seq(l));
            }
            r
        },
    }
}

/// Repaints a black top node red, giving up one black height: the
/// small price the deletion rebalancing pays to mend a deficient
/// sibling.
fn make_red<K: TotalOrder, V>(l: Link<K, V>) -> (r: Link<K, V>)
    requires
        l is Some,
        link_color(l) == Color::Black,
        rb_ok(l),
    ensures
        near_rb_ok(r),
        r is Some,
        link_color(r) == Color::Red,
        black_height(r) + 1 == black_height(l),
        link_seq(r) == link_seq(l),
{
    proof {
        lemma_link_parts(l);
    }
    let mut node = *l.unwrap();
    node.color = Color::Red;
    let r = Some(Box::new(node));
    proof {
        lemma_link_parts(r);
    }
    r
}

/// Rebuilds a node whose left subtree came back from a deletion one
/// black step short; the local rearrangement pays the missing step back
/// or passes the debt upward.
fn del_balance_left<K: TotalOrder, V>(l: Link<K, V>, key: K, value: V, r: Link<K, V>) -> (t: Link<
    K,
    V,
>)
    requires
        near_rb_ok(l),
        rb_ok(r),
        black_height(l) + 1 == black_height(r),
    ensures
        near_rb_ok(t),
        black_height(t) == black_height(r),
        link_color(r) == Color::Black ==> rb_ok(t),
        link_seq(t) == link_seq(l) + seq![(key, value)] + link_seq(r),
{
    let ghost l0 = l;
    let ghost r0 = r;
    if is_red(&l) {
        proof {
            lemma_link_parts(l0);
        }
        let mut lnode = *l.unwrap();
        lnode.color = Color::Black;
        let blackened = Some(Box::new(lnode));
        proof {
            lemma_link_parts(blackened);
        }
        let t = mk_node(Color::Red, blackened, key, value, r);
        t
    } else {
        proof {
            lemma_link_parts(r0);
            assert(r0 is Some) by {
                assert(black_height(r0) >= 1);
            }
        }
        let rnode = *r.unwrap();
        if rnode.color == Color::Black {
            let reddened = mk_node(Color::Red, rnode.left, rnode.key, rnode.val, rnode.right);
            let t = balance_right(l, key, value, reddened);
            t
        } else {
            proof {
                if rnode.left is Some {
                    lemma_link_parts(rnode.left);
                }
                assert(rnode.left is Some) by {
                    assert(black_height(rnode.left) >= 1);
                }
            }
            let rlnode = *rnode.left.unwrap();
            let newl = mk_node(Color::Black, l, key, value, rlnode.left);
            let reddened = make_red(rnode.right);
            let newr = balance_right(rlnode.right, rnode.key, rnode.val, reddened);
            let t = mk_node(Color::Red, newl, rlnode.key, rlnode.val, newr);
            proof {
                assert(link_seq(t) =~= link_seq(l0) + seq![(key, value)] + link_seq(r0));
            }
            t
        }
    }
}

/// Rebuilds a node whose right subtree came back from a deletion one
/// black step short; the mirror image of `del_balance_left`.
fn del_balance_right<K: TotalOrder, V>(l: Link<K, V>, key: K, value: V, r: Link<K, V>) -> (t: Link<
    K,
    V,
>)
    requires
        rb_ok(l),
        near_rb_ok(r),
        black_height(r) + 1 == black_height(l),
    ensures
        near_rb_ok(t),
        black_height(t) == black_height(l),
        link_color(l) == Color::Black ==> rb_ok(t),
        link_seq(t) == link_seq(l) + seq![(key, value)] + link_seq(r),
{
    let ghost l0 = l;
    let ghost r0 = r;
    if is_red(&r) {
        proof {
            lemma_link_parts(r0);
        }
        let mut rnode = *r.unwrap();
        rnode.color = Color::Black;
        let blackened = Some(Box::new(rnode));
        proof {
            lemma_link_parts(blackened);
        }
        let t = mk_node(Color::Red, l, key, value, blackened);
        t
    } else {
        proof {
            lemma_link_parts(l0);
            assert(l0 is Some) by {
                assert(black_height(l0) >= 1);
            }
        }
        let lnode = *l.unwrap();
        if lnode.color == Color::Black {
            let reddened = mk_node(Color::Red, lnode.left, lnode.key, lnode.val, lnode.right);
            let t = balance_left(reddened, key, value, r);
            t
        } else {
            proof {
                if lnode.right is Some {
                    lemma_link_parts(lnode.right);
                }
                assert(lnode.right is Some) by {
                    assert(black_height(lnode.right) >= 1);
                }
            }
            let lrnode = *lnode.right.unwrap();
            let reddened = make_red(lnode.left);
            let newl = balance_left(reddened, lnode.key, lnode.val, lrnode.left);
            let newr = mk_node(Color::Black, lrnode.right, key, value, r);
            let t = mk_node(Color::Red, newl, lrnode.key, lrnode.val, newr);
            proof {
                assert(link_seq(t) =~= link_seq(l0) + seq![(key, value)] + link_seq(r0));
            }
            t
        }
    }
}

/// A spliced middle: welding two nodes around a joined middle part
/// lines up with concatenating the two whole subtrees.
proof fn lemma_splice_mid<T>(
    a: Seq<T>,
    x: Seq<T>,
    b: Seq<T>,
    c: Seq<T>,
    y: Seq<T>,
    d: Seq<T>,
    m1: Seq<T>,
    z: Seq<T>,
    m2: Seq<T>,
)
    requires
        b + c == m1 + z + m2,
    ensures
        ((a + x + m1) + z) + (m2 + y + d) == (a + x + b) + (c + y + d),
{
    assert(((a + x + m1) + z) + (m2 + y + d) =~= a + x + ((m1 + z + m2) + (y + d)));
    assert((a + x + b) + (c + y + d) =~= a + x + ((b + c) + (y + d)));
    assert(a + x + ((m1 + z + m2) + (y + d)) == a + x + ((b + c) + (y + d)));
}

/// A sunk middle: hanging the joined middle part under the right node
/// lines up with concatenating the two whole subtrees.
proof fn lemma_sink_mid<T>(a: Seq<T>, x: Seq<T>, b: Seq<T>, c: Seq<T>, y: Seq<T>, d: Seq<T>)
    ensures
        (a + x) + (((b + c) + y) + d) == (a + x + b) + (c + y + d),
        ((a + x) + ((b + c) + y) + d) == (a + x + b) + (c + y + d),
{
    assert((a + x) + (((b + c) + y) + d) =~= (a + x + b) + (c + y + d));
    assert(((a + x) + ((b + c) + y) + d) =~= (a + x + b) + (c + y + d));
}

/// Joining onto a red right node from the left keeps the whole
/// sequence.
proof fn lemma_graft_left<T>(l: Seq<T>, c: Seq<T>, y: Seq<T>, d: Seq<T>)
    ensures
        ((l + c) + y) + d == l + ((c + y) + d),
        (l + c) + y + d == l + (c + y + d),
{
    assert(((l + c) + y) + d =~= l + ((c + y) + d));
    assert((l + c) + y + d =~= l + (c + y + d));
}

/// Joining onto a red left node from the right keeps the whole
/// sequence.
proof fn lemma_graft_right<T>(a: Seq<T>, x: Seq<T>, b: Seq<T>, r: Seq<T>)
    ensures
        (a + x) + (b + r) == ((a + x) + b) + r,
        (a + x) + (b + r) == (a + x + b) + r,
{
    assert((a + x) + (b + r) =~= ((a + x) + b) + r);
}

/// Joins two subtrees of equal black height whose key ranges already
/// stand in order, welding the seam where a deleted node stood.
#[verifier::rlimit(100)]
#[verifier::spinoff_prover]
fn join_link<K: TotalOrder, V>(l: Link<K, V>, r: Link<K, V>) -> (t: Link<K, V>)
    requires
        rb_ok(l),
        rb_ok(r),
        black_height(l) == black_height(r),
    ensures
        near_rb_ok(t),
        black_height(t) == black_height(l),
        link_color(l) == Color::Black && link_color(r) == Color::Black ==> rb_ok(t),
        link_seq(t) == link_seq(l) + link_seq(r),
    decreases link_seq(l).len() + link_seq(r).len(),
{
    let ghost l0 = l;
    let ghost r0 = r;
    if l.is_none() {
        proof {
            assert(link_seq(r0) =~= link_seq(l0) + link_seq(r0));
        }
        return r;
    }
    if r.is_none() {
        proof {
            assert(link_seq(l0) =~= link_seq(l0) + link_seq(r0));
        }
        return l;
    }
    proof {
        lemma_link_parts(l0);
        lemma_link_parts(r0);
    }
    let lnode = *l.unwrap();
    let rnode = *r.unwrap();
    if lnode.color == Color::Red && rnode.color == Color::Red {
        let mid = join_link(lnode.right, rnode.left);
        let ghost mid0 = mid;
        if is_red(&mid) {
            proof {
                lemma_link_parts(mid0);
            }
            let midnode = *mid.unwrap();
            let newl = mk_node(Color::Red, lnode.left, lnode.key, lnode.val, midnode.left);
            let newr = mk_node(Color::Red, midnode.right, rnode.key, rnode.val, rnode.right);
            let t = mk_node(Color::Red, newl, midnode.key, midnode.val, newr);
            proof {
                lemma_splice_mid(
                    link_seq(lnode.left),
                    seq![(lnode.key, lnode.val)],
                    link_seq(lnode.right),
                    link_seq(rnode.left),
                    seq![(rnode.key, rnode.val)],
                    link_seq(rnode.right),
                    link_seq(midnode.left),
                    seq![(midnode.key, midnode.val)],
                    link_seq(midnode.right),
                );
            }
            t
        } else {
            let newr = mk_node(Color::Red, mid, rnode.key, rnode.val, rnode.right);
            let t = mk_node(Color::Red, lnode.left, lnode.key, lnode.val, newr);
            proof {
                lemma_sink_mid(
                    link_seq(lnode.left),
                    seq![(lnode.key, lnode.val)],
                    link_seq(lnode.right),
                    link_seq(rnode.left),
                    seq![(rnode.key, rnode.val)],
                    link_seq(rnode.right),
                );
            }
            t
        }
    } else if lnode.color == Color::Black && rnode.color == Color::Black {
        let mid = join_link(lnode.right, rnode.left);
        let ghost mid0 = mid;
        if is_red(&mid) {
            proof {
                lemma_link_parts(mid0);
            }
            let midnode = *mid.unwrap();
            let newl = mk_node(Color::Black, lnode.left, lnode.key, lnode.val, midnode.left);
            let newr = mk_node(Color::Black, midnode.right, rnode.key, rnode.val, rnode.right);
            let t = mk_node(Color::Red, newl, midnode.key, midnode.val, newr);
            proof {
                lemma_splice_mid(
                    link_seq(lnode.left),
                    seq![(lnode.key, lnode.val)],
                    link_seq(lnode.right),
                    link_seq(rnode.left),
                    seq![(rnode.key, rnode.val)],
                    link_seq(rnode.right),
                    link_seq(midnode.left),
                    seq![(midnode.key, midnode.val)],
                    link_seq(midnode.right),
                );
            }
            t
        } else {
            let newr = mk_node(Color::Black, mid, rnode.key, rnode.val, rnode.right);
            let t = del_balance_left(lnode.left, lnode.key, lnode.val, newr);
            proof {
                lemma_sink_mid(
                    link_seq(lnode.left),
                    seq![(lnode.key, lnode.val)],
                    link_seq(lnode.right),
                    link_seq(rnode.left),
                    seq![(rnode.key, rnode.val)],
                    link_seq(rnode.right),
                );
            }
            t
        }
    } else if rnode.color == Color::Red {
        let rebuilt = Some(Box::new(lnode));
        proof {
            lemma_link_parts(rebuilt);
        }
        let mid = join_link(rebuilt, rnode.left);
        let t = mk_node(Color::Red, mid, rnode.key, rnode.val, rnode.right);
        proof {
            lemma_graft_left(
                link_seq(l0),
                link_seq(rnode.left),
                seq![(rnode.key, rnode.val)],
                link_seq(rnode.right),
            );
        }
        t
    } else {
        let rebuilt = Some(Box::new(rnode));
        proof {
            lemma_link_parts(rebuilt);
        }
        let mid = join_link(lnode.right, rebuilt);
        let t = mk_node(Color::Red, lnode.left, lnode.key, lnode.val, mid);
        proof {
            lemma_graft_right(
                link_seq(lnode.left),
                seq![(lnode.key, lnode.val)],
                link_seq(lnode.right),
                link_seq(r0),
            );
        }
        t
    }
}

/// Where a tied key can sit in a sorted `left + [pivot] + right`: left
/// of the pivot when the sought key is below it, right when above, at
/// the pivot itself when tied.
proof fn lemma_key_location<K: TotalOrder, V>(a: Seq<(K, V)>, p: (K, V), b: Seq<(K, V)>, k: K)
    requires
        entries_sorted(a + seq![p] + b),
    ensures
        (k.le(p.0) && !p.0.le(k)) ==> has_key(a + seq![p] + b, k) == has_key(a, k),
        (p.0.le(k) && !k.le(p.0)) ==> has_key(a + seq![p] + b, k) == has_key(b, k),
        eqv(p.0, k) ==> has_key(a + seq![p] + b, k),
{
    let whole = a + seq![p] + b;
    let n = a.len() as int;
    lemma_sorted_parts(a, p, b);
    assert(whole[n] == p);
    if k.le(p.0) && !p.0.le(k) {
        if has_key(whole, k) {
            let i = choose|i: int| 0 <= i < whole.len() && eqv(#[trigger] whole[i].0, k);
            if i > n {
                assert(whole[i] == b[i - n - 1]);
                K::le_trans(p.0, whole[i].0, k);
                assert(false);
            } else if i == n {
                assert(false);
            } else {
                assert(whole[i] == a[i]);
                assert(has_key(a, k));
            }
        }
        if has_key(a, k) {
            let i = choose|i: int| 0 <= i < a.len() && eqv(#[trigger] a[i].0, k);
            assert(whole[i] == a[i]);
            assert(has_key(whole, k));
        }
    }
    if p.0.le(k) && !k.le(p.0) {
        if has_key(whole, k) {
            let i = choose|i: int| 0 <= i < whole.len() && eqv(#[trigger] whole[i].0, k);
            if i < n {
                assert(whole[i] == a[i]);
                K::le_trans(k, whole[i].0, p.0);
                assert(false);
            } else if i == n {
                assert(false);
            } else {
                assert(whole[i] == b[i - n - 1]);
                assert(has_key(b, k));
            }
        }
        if has_key(b, k) {
            let i = choose|i: int| 0 <= i < b.len() && eqv(#[trigger] b[i].0, k);
            assert(whole[n + 1 + i] == b[i]);
            assert(has_key(whole, k));
        }
    }
    if eqv(p.0, k) {
        assert(has_key(whole, k));
    }
}

/// Removing inside the left part commutes with joining the parts.
proof fn lemma_remove_left<T>(a: Seq<T>, s: Seq<T>, b: Seq<T>, i: int)
    requires
        0 <= i < a.len(),
    ensures
        (a.remove(i) + s) + b == ((a + s) + b).remove(i),
{
    assert((a.remove(i) + s) + b =~= ((a + s) + b).remove(i));
}

/// Removing inside the right part commutes with joining the parts.
proof fn lemma_remove_right<T>(a: Seq<T>, s: Seq<T>, b: Seq<T>, i: int)
    requires
        0 <= i < b.len(),
    ensures
        (a + s) + b.remove(i) == ((a + s) + b).remove(a.len() + s.len() + i),
{
    assert((a + s) + b.remove(i) =~= ((a + s) + b).remove(a.len() + s.len() + i));
}

/// Dropping a one-entry middle is removal at its index.
proof fn lemma_remove_mid<T>(a: Seq<T>, s: Seq<T>, b: Seq<T>)
    requires
        s.len() == 1,
    ensures
        a + b == ((a + s) + b).remove(a.len() as int),
{
    assert(a + b =~= ((a + s) + b).remove(a.len() as int));
}

/// Removal keeps any key bound that held of the whole sequence.
proof fn lemma_remove_bounds<K: TotalOrder, V>(s: Seq<(K, V)>, i: int, k: K)
    requires
        0 <= i < s.len(),
    ensures
        all_keys_le(s, k) ==> all_keys_le(s.remove(i), k),
        all_keys_ge(s, k) ==> all_keys_ge(s.remove(i), k),
{
    if all_keys_le(s, k) {
        assert forall|j: int| 0 <= j < s.remove(i).len() implies (#[trigger] s.remove(i)[j]).0.le(
            k,
        ) by {
            if j < i {
                assert(s.remove(i)[j] == s[j]);
            } else {
                assert(s.remove(i)[j] == s[j + 1]);
            }
        }
    }
    if all_keys_ge(s, k) {
        assert forall|j: int| 0 <= j < s.remove(i).len() implies k.le(
            (#[trigger] s.remove(i)[j]).0,
        ) by {
            if j < i {
                assert(s.remove(i)[j] == s[j]);
            } else {
                assert(s.remove(i)[j] == s[j + 1]);
            }
        }
    }
}

/// Deletes one entry whose key ties with `key`, if any ties: the
/// standard descent, then a join of the two subtrees where the entry
/// stood, with the deletion rebalancing on the way back up. A red
/// subtree comes back whole; a black one comes back one black step
/// short, for the caller to mend.
#[verifier::rlimit(100)]
#[verifier::spinoff_prover]
fn del_link<K: TotalOrder, V>(l: Link<K, V>, key: &K) -> (r: Link<K, V>)
    requires
        rb_ok(l),
        entries_sorted(link_seq(l)),
    ensures
        near_rb_ok(r),
        entries_sorted(link_seq(r)),
        link_color(l) == Color::Red ==> rb_ok(r) && black_height(r) == black_height(l),
        link_color(l) == Color::Black && l is Some ==> black_height(r) + 1 == black_height(l),
        l is None ==> r is None,
        has_key(link_seq(l), *key) ==> exists|i: int|
            0 <= i < link_seq(l).len() && eqv(#[trigger] link_seq(l)[i].0, *key) && link_seq(r)
                == link_seq(l).remove(i),
        !has_key(link_seq(l), *key) ==> link_seq(r) == link_seq(l),
    decreases l,
{
    let ghost l0 = l;
    match l {
        None => None,
        Some(n) => {
            let node = *n;
            let ghost lseq = link_seq(node.left);
            let ghost rseq = link_seq(node.right);
            let ghost pivot = ((node.key, node.val));
            proof {
                lemma_link_parts(l0);
                lemma_sorted_parts(lseq, pivot, rseq);
                lemma_key_location(lseq, pivot, rseq, *key);
            }
            if key.lt(&node.key) {
                let left_black = match &node.left {
                    Some(x) => x.color == Color::Black,
                    None => false,
                };
                proof {
                    if node.left is Some {
                        lemma_link_parts(node.left);
                    }
                }
                let newl = del_link(node.left, key);
                let ghost nseq = link_seq(newl);
                proof {
                    if has_key(lseq, *key) {
                        let i = choose|i: int|
                            0 <= i < lseq.len() && eqv(#[trigger] lseq[i].0, *key) && nseq
                                == lseq.remove(i);
                        lemma_remove_bounds(lseq, i, node.key);
                        lemma_remove_left(lseq, seq![pivot], rseq, i);
                    }
                    lemma_sorted_join(nseq, pivot, rseq);
                }
                let t = if left_black {
                    del_balance_left(newl, node.key, node.val, node.right)
                } else {
                    mk_node(Color::Red, newl, node.key, node.val, node.right)
                };
                proof {
                    if has_key(lseq, *key) {
                        let i = choose|i: int|
                            0 <= i < lseq.len() && eqv(#[trigger] lseq[i].0, *key) && nseq
                                == lseq.remove(i);
                        assert(link_seq(l0)[i] == lseq[i]);
                        assert(eqv(link_seq(l0)[i].0, *key));
                        assert(link_seq(t) == link_seq(l0).remove(i));
                    }
                }
                t
            } else if node.key.lt(key) {
                let right_black = match &node.right {
                    Some(x) => x.color == Color::Black,
                    None => false,
                };
                proof {
                    if node.right is Some {
                        lemma_link_parts(node.right);
                    }
                }
                let newr = del_link(node.right, key);
                let ghost nseq = link_seq(newr);
                proof {
                    if has_key(rseq, *key) {
                        let i = choose|i: int|
                            0 <= i < rseq.len() && eqv(#[trigger] rseq[i].0, *key) && nseq
                                == rseq.remove(i);
                        lemma_remove_bounds(rseq, i, node.key);
                        lemma_remove_right(lseq, seq![pivot], rseq, i);
                    }
                    lemma_sorted_join(lseq, pivot, nseq);
                }
                let t = if right_black {
                    del_balance_right(node.left, node.key, node.val, newr)
                } else {
                    mk_node(Color::Red, node.left, node.key, node.val, newr)
                };
                proof {
                    if has_key(rseq, *key) {
                        let i = choose|i: int|
                            0 <= i < rseq.len() && eqv(#[trigger] rseq[i].0, *key) && nseq
                                == rseq.remove(i);
                        let j = lseq.len() + 1 + i;
                        assert(link_seq(l0)[j] == rseq[i]);
                        assert(eqv(link_seq(l0)[j].0, *key));
                        assert(link_seq(t) == link_seq(l0).remove(j));
                    }
                }
                t
            } else {
                proof {
                    K::le_total(*key, node.key);
                    assert(eqv(node.key, *key));
                    lemma_sorted_join_no_pivot(lseq, pivot, rseq);
                    lemma_remove_mid(lseq, seq![pivot], rseq);
                    assert(link_seq(l0)[lseq.len() as int] == pivot);
                }
                let t = join_link(node.left, node.right);
                proof {
                    let j = lseq.len() as int;
                    assert(eqv(link_seq(l0)[j].0, *key));
                    assert(link_seq(t) == link_seq(l0).remove(j));
                }
                t
            }
        },
    }
}

/// Finds an entry whose key ties with `key`: strictly smaller keys send
/// the search left, strictly larger right, a tie stops it.
fn search_link<'a, K: TotalOrder, V>(l: &'a Link<K, V>, key: &K) -> (r: Option<&'a V>)
    requires
        entries_sorted(link_seq(*l)),
    ensures
        match r {
            Some(v) => exists|i: int|
                0 <= i < link_seq(*l).len() && eqv(#[trigger] link_seq(*l)[i].0, *key) && link_seq(
                    *l,
                )[i].1 == *v,
            None => !has_key(link_seq(*l), *key),
        },
    decreases *l,
{
    match l {
        None => None,
        Some(n) => {
            let ghost lseq = link_seq(n.left);
            let ghost rseq = link_seq(n.right);
            let ghost pivot = ((n.key, n.val));
            proof {
                lemma_link_parts(*l);
                lemma_sorted_parts(lseq, pivot, rseq);
                lemma_key_location(lseq, pivot, rseq, *key);
            }
            if key.lt(&n.key) {
                let r = search_link(&n.left, key);
                proof {
                    if r is Some {
                        let i = choose|i: int|
                            0 <= i < lseq.len() && eqv(#[trigger] lseq[i].0, *key) && lseq[i].1
                                == *r.unwrap();
                        assert(link_seq(*l)[i] == lseq[i]);
                    }
                }
                r
            } else if n.key.lt(key) {
                let r = search_link(&n.right, key);
                proof {
                    if r is Some {
                        let i = choose|i: int|
                            0 <= i < rseq.len() && eqv(#[trigger] rseq[i].0, *key) && rseq[i].1
                                == *r.unwrap();
                        assert(link_seq(*l)[lseq.len() + 1 + i] == rseq[i]);
                    }
                }
                r
            } else {
                proof {
                    K::le_total(*key, n.key);
                    assert(eqv(n.key, *key));
                    assert(link_seq(*l)[lseq.len() as int] == pivot);
                }
                Some(&n.val)
            }
        },
    }
}

/// Replaces the value of an entry whose key ties with `key` by what the
/// mutator makes of it; everything else, keys and shape and colors,
/// stays as it was.
fn upd_link<K: TotalOrder, V, F: FnOnce(V) -> V>(l: Link<K, V>, key: &K, f: F) -> (r: Link<K, V>)
    requires
        entries_sorted(link_seq(l)),
        forall|v: V| #[trigger] call_requires(f, (v,)),
    ensures
        link_seq(r).len() == link_seq(l).len(),
        forall|i: int|
            0 <= i < link_seq(l).len() ==> (#[trigger] link_seq(r)[i]).0 == link_seq(l)[i].0,
        link_color(r) == link_color(l),
        black_height(r) == black_height(l),
        rb_ok(l) ==> rb_ok(r),
        near_rb_ok(l) ==> near_rb_ok(r),
        has_key(link_seq(l), *key) ==> exists|i: int|
            0 <= i < link_seq(l).len() && eqv(#[trigger] link_seq(l)[i].0, *key) && call_ensures(
                f,
                (link_seq(l)[i].1,),
                link_seq(r)[i].1,
            ) && link_seq(r) == link_seq(l).update(i, (link_seq(l)[i].0, link_seq(r)[i].1)),
        !has_key(link_seq(l), *key) ==> link_seq(r) == link_seq(l),
    decreases l,
{
    let ghost l0 = l;
    match l {
        None => None,
        Some(n) => {
            let node = *n;
            let ghost lseq = link_seq(node.left);
            let ghost rseq = link_seq(node.right);
            let ghost pivot = ((node.key, node.val));
            proof {
                lemma_link_parts(l0);
                lemma_sorted_parts(lseq, pivot, rseq);
                lemma_key_location(lseq, pivot, rseq, *key);
            }
            if key.lt(&node.key) {
                let newl = upd_link(node.left, key, f);
                let ghost nseq = link_seq(newl);
                let t = mk_node(node.color, newl, node.key, node.val, node.right);
                proof {
                    assert forall|i: int| 0 <= i < link_seq(l0).len() implies (#[trigger] link_seq(
                        t,
                    )[i]).0 == link_seq(l0)[i].0 by {
                        if i < lseq.len() {
                            assert(link_seq(t)[i] == nseq[i]);
                            assert(link_seq(l0)[i] == lseq[i]);
                        } else {
                            assert(link_seq(t)[i] == (seq![pivot] + rseq)[i - lseq.len()]);
                            assert(link_seq(l0)[i] == (seq![pivot] + rseq)[i - lseq.len()]);
                        }
                    }
                    if has_key(lseq, *key) {
                        let i = choose|i: int|
                            0 <= i < lseq.len() && eqv(#[trigger] lseq[i].0, *key) && call_ensures(
                                f,
                                (lseq[i].1,),
                                nseq[i].1,
                            ) && nseq == lseq.update(i, (lseq[i].0, nseq[i].1));
                        assert(link_seq(t)[i] == nseq[i]);
                        assert(link_seq(l0)[i] == lseq[i]);
                        assert(link_seq(t) =~= link_seq(l0).update(i, (lseq[i].0, nseq[i].1)));
                    }
                }
                t
            } else if node.key.lt(key) {
                let newr = upd_link(node.right, key, f);
                let ghost nseq = link_seq(newr);
                let t = mk_node(node.color, node.left, node.key, node.val, newr);
                proof {
                    assert forall|i: int| 0 <= i < link_seq(l0).len() implies (#[trigger] link_seq(
                        t,
                    )[i]).0 == link_seq(l0)[i].0 by {
                        if i <= lseq.len() {
                            assert(link_seq(t)[i] == (lseq + seq![pivot])[i]);
                            assert(link_seq(l0)[i] == (lseq + seq![pivot])[i]);
                        } else {
                            assert(link_seq(t)[i] == nseq[i - lseq.len() - 1]);
                            assert(link_seq(l0)[i] == rseq[i - lseq.len() - 1]);
                        }
                    }
                    if has_key(rseq, *key) {
                        let i = choose|i: int|
                            0 <= i < rseq.len() && eqv(#[trigger] rseq[i].0, *key) && call_ensures(
                                f,
                                (rseq[i].1,),
                                nseq[i].1,
                            ) && nseq == rseq.update(i, (rseq[i].0, nseq[i].1));
                        let j = lseq.len() + 1 + i;
                        assert(link_seq(t)[j] == nseq[i]);
                        assert(link_seq(l0)[j] == rseq[i]);
                        assert(link_seq(t) =~= link_seq(l0).update(j, (rseq[i].0, nseq[i].1)));
                    }
                }
                t
            } else {
                proof {
                    K::le_total(*key, node.key);
                    assert(eqv(node.key, *key));
                }
                let newv = f(node.val);
                let t = mk_node(node.color, node.left, node.key, newv, node.right);
                proof {
                    let j = lseq.len() as int;
                    assert(link_seq(l0)[j] == pivot);
                    assert(link_seq(t)[j] == (node.key, newv));
                    assert forall|i: int| 0 <= i < link_seq(l0).len() implies (#[trigger] link_seq(
                        t,
                    )[i]).0 == link_seq(l0)[i].0 by {
                        if i < j {
                            assert(link_seq(t)[i] == lseq[i]);
                            assert(link_seq(l0)[i] == lseq[i]);
                        } else if i > j {
                            assert(link_seq(t)[i] == rseq[i - j - 1]);
                            assert(link_seq(l0)[i] == rseq[i - j - 1]);
                        }
                    }
                    assert(link_seq(t) =~= link_seq(l0).update(j, (link_seq(l0)[j].0, newv)));
                }
                t
            }
        },
    }
}

/// Pushes a subtree's entries, each duplicated, onto the back of `out`
/// in key order.
fn inorder_link<K: TotalOrder + Dup, V: Dup>(l: &Link<K, V>, out: &mut Vec<(K, V)>)
    ensures
        final(out)@ == old(out)@ + link_seq(*l),
    decreases *l,
{
    match l {
        None => {
            proof {
                assert(old(out)@ + link_seq(*l) =~= old(out)@);
            }
        },
        Some(n) => {
            proof {
                lemma_link_parts(*l);
            }
            inorder_link(&n.left, out);
            let entry = (n.key.dup(), n.val.dup());
            out.push(entry);
            inorder_link(&n.right, out);
            proof {
                assert(final(out)@ =~= old(out)@ + link_seq(*l));
            }
        },
    }
}

/// A one-shot snapshot of a tree's entries in key order; `next` hands
/// them out from the front.
pub struct RbIter<K: TotalOrder, V> {
    items: Vec<(K, V)>,
    pos: usize,
}

impl<K: TotalOrder, V> View for RbIter<K, V> {
    type V = Seq<(K, V)>;

    closed spec fn view(&self) -> Seq<(K, V)> {
        self.items@.skip(self.pos as int)
    }
}

impl<K: TotalOrder, V> RbIter<K, V> {
    /// The snapshot's standing invariant: the cursor never passes the
    /// end.
    pub closed spec fn well_formed(self) -> bool {
        self.pos <= self.items.len()
    }
}

impl<K: TotalOrder + Dup, V: Dup> RbIter<K, V> {
    /// The front entry of what remains, or nothing when the snapshot is
    /// spent.
    pub fn next(&mut self) -> (r: Option<(K, V)>)
        requires
            old(self).well_formed(),
        ensures
            final(self).well_formed(),
            match r {
                Some(e) => old(self)@.len() > 0 && e == old(self)@[0] && final(self)@ == old(
                    self,
                )@.drop_first(),
                None => old(self)@.len() == 0 && final(self)@ == old(self)@,
            },
    {
        if self.pos < self.items.len() {
            let k = self.items[self.pos].0.dup();
            let v = self.items[self.pos].1.dup();
            self.pos = self.pos + 1;
            proof {
                assert(old(self)@[0] == self.items@[old(self).pos as int]);
                assert(final(self)@ =~= old(self)@.drop_first());
            }
            Some((k, v))
        } else {
            None
        }
    }
}

/// The red-black tree: an ordered map from a totally ordered key type
/// to one value per node, duplicate keys allowed. Its abstract value is
/// the in-order entry sequence `self@`; `well_formed` holds between any
/// two calls and carries the red-black shape rules and the key order.
pub struct RbTree<K: TotalOrder, V> {
    root: Link<K, V>,
    length: i32,
}

impl<K: TotalOrder, V> View for RbTree<K, V> {
    type V = Seq<(K, V)>;

    closed spec fn view(&self) -> Seq<(K, V)> {
        link_seq(self.root)
    }
}

impl<K: TotalOrder, V> RbTree<K, V> {
    /// The tree's standing invariant: the red-black color rules, a
    /// black top, entries in key order, and an exact entry count.
    pub closed spec fn well_formed(self) -> bool {
        rb_ok(self.root) && link_color(self.root) == Color::Black && entries_sorted(
            link_seq(self.root),
        ) && self.length as int == link_seq(self.root).len() as int
    }

    /// What the invariant gives every caller: the entries stand in key
    /// order, and there are few enough to count.
    pub proof fn lemma_well_formed(self)
        requires
            self.well_formed(),
        ensures
            entries_sorted(self@),
            self@.len() <= i32::MAX,
    {
    }

    /// An empty tree.
    pub fn new() -> (t: Self)
        ensures
            t.well_formed(),
            t@ == Seq::<(K, V)>::empty(),
    {
        let t = RbTree { root: None, length: 0 };
        proof {
            assert(link_seq(t.root) =~= Seq::<(K, V)>::empty());
        }
        t
    }

    /// Adds one entry. The new entry takes its place in key order,
    /// after every entry whose key ties with it; every entry already
    /// present stays.
    pub fn insert(&mut self, key: K, value: V)
        requires
            old(self).well_formed(),
            old(self)@.len() < i32::MAX,
        ensures
            final(self).well_formed(),
            final(self)@.len() == old(self)@.len() + 1,
            exists|i: int|
                0 <= i <= old(self)@.len() && final(self)@ == old(self)@.insert(i, (key, value))
                    && (forall|j: int|
                    i <= j < old(self)@.len() ==> !eqv((#[trigger] old(self)@[j]).0, key)),
            final(self)@.to_multiset() == old(self)@.to_multiset().insert((key, value)),
    {
        let ghost oldseq = link_seq(self.root);
        let root = self.root.take();
        let grown = ins_link(root, key, value);
        self.root = make_black(grown);
        self.length = self.length + 1;
        proof {
            let i = choose|i: int|
                0 <= i <= oldseq.len() && link_seq(self.root) == oldseq.insert(i, (key, value)) && (
                forall|j: int| i <= j < oldseq.len() ==> !eqv((#[trigger] oldseq[j]).0, key));
            to_multiset_insert(oldseq, i, (key, value));
        }
    }

    /// Deletes one entry whose key ties with `key`; a missing key
    /// changes nothing. Which of several tied entries leaves is the one
    /// the descent reaches first.
    pub fn delete(&mut self, key: K)
        requires
            old(self).well_formed(),
        ensures
            final(self).well_formed(),
            has_key(old(self)@, key) ==> final(self)@.len() == old(self)@.len() - 1
                && exists|i: int|
                0 <= i < old(self)@.len() && eqv(#[trigger] old(self)@[i].0, key) && final(self)@
                    == old(self)@.remove(i),
            !has_key(old(self)@, key) ==> final(self)@ == old(self)@,
    {
        let found = search_link(&self.root, &key);
        if found.is_some() {
            proof {
                let i = choose|i: int|
                    0 <= i < link_seq(self.root).len() && eqv(
                        #[trigger] link_seq(self.root)[i].0,
                        key,
                    ) && link_seq(self.root)[i].1 == *found.unwrap();
                assert(has_key(link_seq(self.root), key));
            }
            let root = self.root.take();
            let smaller = del_link(root, &key);
            self.root = make_black(smaller);
            self.length = self.length - 1;
        }
    }

    /// Whether some entry's key ties with `key`.
    pub fn key_exist(&self, key: K) -> (r: bool)
        requires
            self.well_formed(),
        ensures
            r == has_key(self@, key),
    {
        let found = search_link(&self.root, &key);
        proof {
            if found is Some {
                let i = choose|i: int|
                    0 <= i < self@.len() && eqv(#[trigger] self@[i].0, key) && self@[i].1
                        == *found.unwrap();
                assert(has_key(self@, key));
            }
        }
        found.is_some()
    }

    /// Empties the tree.
    pub fn clear(&mut self)
        ensures
            final(self).well_formed(),
            final(self)@ == Seq::<(K, V)>::empty(),
    {
        self.root = None;
        self.length = 0;
        proof {
            assert(link_seq(final(self).root) =~= Seq::<(K, V)>::empty());
        }
    }

    /// How many entries the tree holds.
    pub fn len(&self) -> (r: i32)
        requires
            self.well_formed(),
        ensures
            r as int == self@.len() as int,
    {
        self.length
    }

    /// Hands the value of an entry whose key ties with `key` to the
    /// mutator and stores what it returns; a missing key changes
    /// nothing.
    pub fn get_mut<F: FnOnce(V) -> V>(&mut self, key: &K, f: F)
        requires
            old(self).well_formed(),
            forall|v: V| #[trigger] call_requires(f, (v,)),
        ensures
            final(self).well_formed(),
            final(self)@.len() == old(self)@.len(),
            has_key(old(self)@, *key) ==> exists|i: int|
                0 <= i < old(self)@.len() && eqv(#[trigger] old(self)@[i].0, *key) && call_ensures(
                    f,
                    (old(self)@[i].1,),
                    final(self)@[i].1,
                ) && final(self)@ == old(self)@.update(i, (old(self)@[i].0, final(self)@[i].1)),
            !has_key(old(self)@, *key) ==> final(self)@ == old(self)@,
    {
        let ghost oldseq = link_seq(self.root);
        let root = self.root.take();
        let updated = upd_link(root, key, f);
        self.root = updated;
        proof {
            assert forall|i: int, j: int|
                0 <= i <= j < link_seq(self.root).len() implies (#[trigger] link_seq(
                self.root,
            )[i]).0.le((#[trigger] link_seq(self.root)[j]).0) by {
                assert(link_seq(self.root)[i].0 == oldseq[i].0);
                assert(link_seq(self.root)[j].0 == oldseq[j].0);
            }
        }
    }
}

impl<K: TotalOrder, V: Dup> RbTree<K, V> {
    /// A copy of the value of some entry whose key ties with `key`, or
    /// nothing when no key ties.
    pub fn get(&self, key: &K) -> (r: Option<V>)
        requires
            self.well_formed(),
        ensures
            match r {
                Some(v) => exists|i: int|
                    0 <= i < self@.len() && eqv(#[trigger] self@[i].0, *key) && self@[i].1 == v,
                None => !has_key(self@, *key),
            },
    {
        match search_link(&self.root, key) {
            Some(v) => {
                let ghost i = choose|i: int|
                    0 <= i < link_seq(self.root).len() && eqv(
                        #[trigger] link_seq(self.root)[i].0,
                        *key,
                    ) && link_seq(self.root)[i].1 == *v;
                let out = v.dup();
                proof {
                    assert(0 <= i < self@.len() && eqv(self@[i].0, *key) && self@[i].1 == out);
                }
                Some(out)
            },
            None => None,
        }
    }
}

impl<K: TotalOrder + Dup, V: Dup> RbTree<K, V> {
    /// A fresh snapshot of every entry in key order.
    pub fn iter(&self) -> (it: RbIter<K, V>)
        requires
            self.well_formed(),
        ensures
            it@ == self@,
            it.well_formed(),
    {
        let mut items: Vec<(K, V)> = Vec::new();
        inorder_link(&self.root, &mut items);
        let it = RbIter { items, pos: 0 };
        proof {
            assert(it@ =~= self@);
        }
        it
    }
}

/// Round-trip: an entry inserted under a key that no present entry
/// ties with is afterwards the only entry tied with that key, so a
/// lookup of that key can only find the value just inserted.
pub proof fn lemma_insert_get_round_trip<K: TotalOrder, V>(
    before: Seq<(K, V)>,
    after: Seq<(K, V)>,
    key: K,
    value: V,
    i: int,
)
    requires
        !has_key(before, key),
        0 <= i <= before.len(),
        after == before.insert(i, (key, value)),
    ensures
        has_key(after, key),
        forall|j: int|
            0 <= j < after.len() && eqv((#[trigger] after[j]).0, key) ==> after[j] == (key, value),
{
    K::le_total(key, key);
    before.insert_ensures(i, (key, value));
    assert(after[i] == (key, value));
    assert(eqv(after[i].0, key));
    assert(has_key(after, key));
    assert forall|j: int|
        0 <= j < after.len() && eqv((#[trigger] after[j]).0, key) implies after[j] == (
    key,
    value,
    ) by {
        if j < i {
            assert(after[j] == before[j]);
            if eqv(before[j].0, key) {
                assert(has_key(before, key));
            }
        } else if j > i {
            assert(after[j] == before[j - 1]);
            if eqv(before[j - 1].0, key) {
                assert(has_key(before, key));
            }
        }
    }
}

} // verus!
