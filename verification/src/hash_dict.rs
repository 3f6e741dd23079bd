//! The hash-bucketed ordered map: a fixed array of ordered trees, one
//! per bucket, with every key routed to its bucket by the mixing hash
//! of the key's canonical byte form. Tied keys share that byte form, so
//! they share a bucket, and every operation on a key touches exactly
//! one tree. The map's abstract value is the multiset of its entries.
use crate::murmur::{spec_hash_key, HashKey};
use crate::order::{eqv, Dup, TotalOrder};
use crate::rb_tree::{entries_sorted, has_key, RbTree};
use vstd::multiset::Multiset;
use vstd::prelude::*;
use vstd::seq_lib::to_multiset_contains;
use vstd::seq_lib::to_multiset_insert;
use vstd::seq_lib::to_multiset_remove;
use vstd::seq_lib::to_multiset_update;

verus! {

/// The entries of a sequence of trees, gathered into one multiset.
pub open spec fn tables_ms<K: TotalOrder, V>(ts: Seq<RbTree<K, V>>) -> Multiset<(K, V)>
    decreases ts.len(),
{
    if ts.len() == 0 {
        Multiset::empty()
    } else {
        tables_ms(ts.drop_last()).add(ts.last()@.to_multiset())
    }
}

/// The bucket a key is routed to: its hash, reduced by the bucket
/// count.
pub open spec fn bucket_of<K: HashKey>(k: K, seed: u32, cap: usize) -> int {
    (spec_hash_key(k, seed) as int) % (cap as int)
}

/// Some entry of the multiset has a key that ties with `k`.
pub open spec fn ms_has_key<K: TotalOrder, V>(m: Multiset<(K, V)>, k: K) -> bool {
    exists|e: (K, V)| #[trigger] m.count(e) > 0 && eqv(e.0, k)
}

/// Growing the gathered prefix by one tree adds that tree's entries.
proof fn lemma_ms_take_step<K: TotalOrder, V>(ts: Seq<RbTree<K, V>>, b: int)
    requires
        0 <= b < ts.len(),
    ensures
        tables_ms(ts.take(b + 1)) == tables_ms(ts.take(b)).add(ts[b]@.to_multiset()),
{
    assert(ts.take(b + 1).drop_last() =~= ts.take(b));
    assert(ts.take(b + 1).last() == ts[b]);
}

/// Replacing one tree exchanges exactly its entries in the gathered
/// multiset.
proof fn lemma_ms_update<K: TotalOrder, V>(ts: Seq<RbTree<K, V>>, i: int, tnew: RbTree<K, V>)
    requires
        0 <= i < ts.len(),
    ensures
        tables_ms(ts.update(i, tnew)).add(ts[i]@.to_multiset()) == tables_ms(ts).add(
            tnew@.to_multiset(),
        ),
    decreases ts.len(),
{
    broadcast use vstd::multiset::group_multiset_axioms;

    let upd = ts.update(i, tnew);
    if i == ts.len() - 1 {
        assert(upd.drop_last() =~= ts.drop_last());
        assert(upd.last() == tnew);
        assert(tables_ms(upd).add(ts[i]@.to_multiset()) =~= tables_ms(ts).add(
            tnew@.to_multiset(),
        ));
    } else {
        let dl = ts.drop_last();
        assert(upd.drop_last() =~= dl.update(i, tnew));
        assert(upd.last() == ts.last());
        lemma_ms_update(dl, i, tnew);
        assert(dl[i] == ts[i]);
        assert(tables_ms(upd) == tables_ms(dl.update(i, tnew)).add(ts.last()@.to_multiset()));
        assert(tables_ms(ts) == tables_ms(dl).add(ts.last()@.to_multiset()));
        assert(tables_ms(dl.update(i, tnew)).add(ts[i]@.to_multiset()) == tables_ms(dl).add(
            tnew@.to_multiset(),
        ));
        assert forall|x: (K, V)|
            tables_ms(upd).add(ts[i]@.to_multiset()).count(x) == tables_ms(ts).add(
                tnew@.to_multiset(),
            ).count(x) by {
            assert(tables_ms(dl.update(i, tnew)).add(ts[i]@.to_multiset()).count(x) == tables_ms(
                dl,
            ).add(tnew@.to_multiset()).count(x));
        }
        assert(tables_ms(upd).add(ts[i]@.to_multiset()) =~= tables_ms(ts).add(
            tnew@.to_multiset(),
        ));
    }
}

/// No tree holds more entries than the gathered multiset.
proof fn lemma_bucket_len<K: TotalOrder, V>(ts: Seq<RbTree<K, V>>, i: int)
    requires
        0 <= i < ts.len(),
    ensures
        ts[i]@.to_multiset().len() <= tables_ms(ts).len(),
    decreases ts.len(),
{
    broadcast use vstd::multiset::group_multiset_axioms;

    if i == ts.len() - 1 {
        assert(ts.last() == ts[i]);
    } else {
        lemma_bucket_len(ts.drop_last(), i);
        assert(ts.drop_last()[i] == ts[i]);
    }
}

/// An entry of the gathered multiset comes from some tree.
proof fn lemma_ms_member<K: TotalOrder, V>(ts: Seq<RbTree<K, V>>, e: (K, V)) -> (b: int)
    requires
        tables_ms(ts).count(e) > 0,
    ensures
        0 <= b < ts.len(),
        ts[b]@.to_multiset().count(e) > 0,
    decreases ts.len(),
{
    broadcast use vstd::multiset::group_multiset_axioms;

    if ts.len() == 0 {
        assert(false);
        0
    } else if ts.last()@.to_multiset().count(e) > 0 {
        ts.len() - 1
    } else {
        let b = lemma_ms_member(ts.drop_last(), e);
        assert(ts.drop_last()[b] == ts[b]);
        b
    }
}

/// An entry of any tree stands in the gathered multiset.
proof fn lemma_bucket_member<K: TotalOrder, V>(ts: Seq<RbTree<K, V>>, b: int, e: (K, V))
    requires
        0 <= b < ts.len(),
        ts[b]@.to_multiset().count(e) > 0,
    ensures
        tables_ms(ts).count(e) > 0,
    decreases ts.len(),
{
    broadcast use vstd::multiset::group_multiset_axioms;

    if b == ts.len() - 1 {
        assert(ts.last() == ts[b]);
    } else {
        assert(ts.drop_last()[b] == ts[b]);
        lemma_bucket_member(ts.drop_last(), b, e);
    }
}

/// A one-shot snapshot of every entry in key order; `next` hands them
/// out from the front.
pub struct HashDictIter<K: TotalOrder, V> {
    items: Vec<(K, V)>,
    pos: usize,
}

impl<K: TotalOrder, V> View for HashDictIter<K, V> {
    type V = Seq<(K, V)>;

    closed spec fn view(&self) -> Seq<(K, V)> {
        self.items@.skip(self.pos as int)
    }
}

impl<K: TotalOrder, V> HashDictIter<K, V> {
    /// The snapshot's standing invariant: the cursor never passes the
    /// end.
    pub closed spec fn well_formed(self) -> bool {
        self.pos <= self.items.len()
    }
}

impl<K: TotalOrder + Dup, V: Dup> HashDictIter<K, V> {
    /// The front entry of what remains, or nothing when the snapshot is
    /// spent.
    pub fn next(&mut self) -> (r: Option<(K, V)>)
        requires
            old(self).well_formed(),
        ensures
            final(self).well_formed(),
            match r {
                Some(e) => old(self)@.len() > 0 && e == old(self)@[0] && final(self)@ == old(
                    self,
                )@.drop_first(),
                None => old(self)@.len() == 0 && final(self)@ == old(self)@,
            },
    {
        if self.pos < self.items.len() {
            let k = self.items[self.pos].0.dup();
            let v = self.items[self.pos].1.dup();
            self.pos = self.pos + 1;
            proof {
                assert(old(self)@[0] == self.items@[old(self).pos as int]);
                assert(final(self)@ =~= old(self)@.drop_first());
            }
            Some((k, v))
        } else {
            None
        }
    }
}

/// Inserts one entry into a sorted vector at a position that keeps the
/// order.
fn sorted_insert_entry<K: TotalOrder, V>(out: &mut Vec<(K, V)>, e: (K, V))
    requires
        entries_sorted(old(out)@),
        old(out)@.len() < usize::MAX,
    ensures
        entries_sorted(final(out)@),
        final(out)@.to_multiset() == old(out)@.to_multiset().insert(e),
        final(out)@.len() == old(out)@.len() + 1,
{
    let mut pos: usize = 0;
    while pos < out.len() && !e.0.lt(&out[pos].0)
        invariant
            pos <= out@.len(),
            out@ == old(out)@,
            forall|i: int| 0 <= i < pos ==> (#[trigger] out@[i]).0.le(e.0),
        decreases out@.len() - pos,
    {
        proof {
            K::le_total(e.0, out@[pos as int].0);
        }
        pos = pos + 1;
    }
    let ghost oldseq = out@;
    let ghost p = pos as int;
    out.insert(pos, e);
    proof {
        oldseq.insert_ensures(p, e);
        to_multiset_insert(oldseq, p, e);
        assert forall|i: int, j: int|
            0 <= i <= j < out@.len() implies (#[trigger] out@[i]).0.le(
            (#[trigger] out@[j]).0,
        ) by {
            if i == j {
                K::le_total(out@[i].0, out@[i].0);
            } else if j < p {
                assert(out@[i] == oldseq[i] && out@[j] == oldseq[j]);
            } else if i > p {
                assert(out@[i] == oldseq[i - 1] && out@[j] == oldseq[j - 1]);
            } else if i < p && j == p {
                assert(out@[i] == oldseq[i] && out@[j] == e);
            } else if i == p && j > p {
                assert(out@[i] == e && out@[j] == oldseq[j - 1]);
                assert(p < oldseq.len());
                assert(e.0.le(oldseq[p].0) && !oldseq[p].0.le(e.0));
                K::le_trans(e.0, oldseq[p].0, oldseq[j - 1].0);
            } else {
                assert(i < p && j > p);
                assert(out@[i] == oldseq[i] && out@[j] == oldseq[j - 1]);
                if j - 1 == i {
                    assert(oldseq[i].0.le(oldseq[j - 1].0)) by {
                        K::le_total(oldseq[i].0, oldseq[i].0);
                    }
                }
            }
        }
    }
}

/// Sorts entries by key: each is lifted into a fresh vector at a
/// position that keeps the order.
fn sort_entries<K: TotalOrder, V>(src: Vec<(K, V)>) -> (r: Vec<(K, V)>)
    ensures
        entries_sorted(r@),
        r@.to_multiset() == src@.to_multiset(),
        r@.len() == src@.len(),
{
    let ghost srcseq = src@;
    let mut rest = src;
    let n = rest.len();
    let mut out: Vec<(K, V)> = Vec::new();
    proof {
        broadcast use vstd::multiset::group_multiset_axioms;
        broadcast use vstd::seq_lib::group_to_multiset_ensures;

        assert(out@.to_multiset().len() == 0);
        assert(out@.to_multiset() =~= Multiset::<(K, V)>::empty());
        assert(srcseq.len() == n);
        assert(out@.to_multiset().add(rest@.to_multiset()) =~= srcseq.to_multiset());
    }
    while rest.len() > 0
        invariant
            out@.to_multiset().add(rest@.to_multiset()) == srcseq.to_multiset(),
            out@.len() + rest@.len() == srcseq.len(),
            entries_sorted(out@),
            srcseq.len() <= usize::MAX,
        decreases rest@.len(),
    {
        let ghost restseq = rest@;
        let e = rest.pop().unwrap();
        proof {
            broadcast use vstd::multiset::group_multiset_axioms;

            assert(rest@ =~= restseq.remove(restseq.len() - 1));
            to_multiset_remove(restseq, restseq.len() - 1);
            assert(restseq[restseq.len() - 1] == e);
            assert(restseq.to_multiset().count(e) > 0) by {
                to_multiset_contains(restseq, e);
                assert(restseq.contains(e));
            }
        }
        sorted_insert_entry(&mut out, e);
        proof {
            broadcast use vstd::multiset::group_multiset_axioms;

            assert(out@.to_multiset().add(rest@.to_multiset()) =~= srcseq.to_multiset());
        }
    }
    proof {
        broadcast use vstd::multiset::group_multiset_axioms;
        broadcast use vstd::seq_lib::group_to_multiset_ensures;

        assert(rest@.to_multiset().len() == 0);
        assert(rest@.to_multiset() =~= Multiset::<(K, V)>::empty());
        assert(out@.to_multiset() =~= srcseq.to_multiset());
    }
    out
}

/// The hash-bucketed ordered map. Its abstract value is the multiset
/// of its entries `self@`; `well_formed` holds between any two calls
/// and carries the bucket invariants: every bucket tree is well formed,
/// every entry sits in the bucket its key hashes to, and the running
/// count matches the entries.
pub struct HashDict<K: HashKey, V> {
    arr_length: usize,
    seed: u32,
    tab_length: usize,
    table: Vec<RbTree<K, V>>,
}

impl<K: HashKey, V> View for HashDict<K, V> {
    type V = Multiset<(K, V)>;

    closed spec fn view(&self) -> Multiset<(K, V)> {
        tables_ms(self.table@)
    }
}

impl<K: HashKey, V> HashDict<K, V> {
    /// The map's standing invariant.
    pub closed spec fn well_formed(self) -> bool {
        &&& self.arr_length > 0
    &&& self.table@.len() == self.arr_length
    &&& (forall|b: int|
            0 <= b < self.table@.len() ==> (#[trigger] self.table@[b]).well_formed())
    &&& (forall|b: int, j: int|
            0 <= b < self.table@.len() && 0 <= j < self.table@[b]@.len() ==> bucket_of(
                (#[trigger] self.table@[b]@[j]).0,
                self.seed,
                self.arr_length,
            ) == b)
    &&& self.tab_length == tables_ms(self.table@).len()
    }

    /// An empty map with `len` buckets, all keys routed under `seed`.
    pub fn new(len: usize, seed: u32) -> (d: Self)
        requires
            len > 0,
        ensures
            d.well_formed(),
            d@ == Multiset::<(K, V)>::empty(),
    {
        let mut new_table: Vec<RbTree<K, V>> = Vec::new();
        proof {
            broadcast use vstd::multiset::group_multiset_axioms;

        }
        for _i in 0..len
            invariant
                new_table@.len() == _i,
                forall|b: int| 0 <= b < _i ==> (#[trigger] new_table@[b]).well_formed(),
                forall|b: int| 0 <= b < _i ==> (#[trigger] new_table@[b])@.len() == 0,
                tables_ms(new_table@).len() == 0,
        {
            let ghost before = new_table@;
            new_table.push(RbTree::new());
            proof {
                broadcast use vstd::multiset::group_multiset_axioms;
                broadcast use vstd::seq_lib::group_to_multiset_ensures;

                assert(new_table@.drop_last() =~= before);
                assert(new_table@.last()@.to_multiset().len() == 0);
                assert(new_table@.last()@.to_multiset() =~= Multiset::<(K, V)>::empty());
            }
        }
        let d = HashDict { arr_length: len, seed, tab_length: 0, table: new_table };
        proof {
            broadcast use vstd::multiset::group_multiset_axioms;

            assert(d@.len() == 0);
            vstd::multiset::lemma_multiset_empty_len(d@);
        }
        d
    }

    /// The bucket the key is routed to.
    fn bucket_index(&self, key: &K) -> (idx: usize)
        requires
            self.arr_length > 0,
        ensures
            idx as int == bucket_of(*key, self.seed, self.arr_length),
            idx < self.arr_length,
    {
        let h = crate::murmur::hash_anything(key, self.seed);
        let m = h % (self.arr_length as u128);
        proof {
            assert(m < self.arr_length as u128);
        }
        m as usize
    }

    /// What the routing invariant gives a lookup: a key's tied entries
    /// all live in the bucket the key hashes to.
    proof fn lemma_key_routed(self, k: K)
        requires
            self.well_formed(),
        ensures
            ms_has_key(self@, k) == has_key(
                self.table@[bucket_of(k, self.seed, self.arr_length)]@,
                k,
            ),
    {
        broadcast use vstd::multiset::group_multiset_axioms;

        let b = bucket_of(k, self.seed, self.arr_length);
        let bseq = self.table@[b]@;
        if ms_has_key(self@, k) {
            let e = choose|e: (K, V)| #[trigger] self@.count(e) > 0 && eqv(e.0, k);
            let b2 = lemma_ms_member(self.table@, e);
            let b2seq = self.table@[b2]@;
            to_multiset_contains(b2seq, e);
            assert(b2seq.contains(e));
            let j = choose|j: int| 0 <= j < b2seq.len() && b2seq[j] == e;
            assert(bucket_of(b2seq[j].0, self.seed, self.arr_length) == b2);
            K::wire_respects_ties(e.0, k);
            assert(bucket_of(e.0, self.seed, self.arr_length) == b);
            assert(b2 == b);
            assert(eqv(bseq[j].0, k));
            assert(has_key(bseq, k));
        }
        if has_key(bseq, k) {
            let j = choose|j: int| 0 <= j < bseq.len() && eqv((#[trigger] bseq[j]).0, k);
            let e = bseq[j];
            to_multiset_contains(bseq, e);
            assert(bseq.contains(e));
            assert(0 <= b < self.table@.len()) by {
                assert(bseq.len() > 0);
            }
            lemma_bucket_member(self.table@, b, e);
            assert(ms_has_key(self@, k));
        }
    }


    /// Hands the value of an entry whose key ties with `key` to the
    /// mutator and stores what it returns, in the bucket the key
    /// hashes to; a missing key changes nothing.
    pub fn get_mut<F: FnOnce(V) -> V>(&mut self, key: &K, f: F)
        requires
            old(self).well_formed(),
            forall|v: V| #[trigger] call_requires(f, (v,)),
        ensures
            final(self).well_formed(),
            final(self)@.len() == old(self)@.len(),
            ms_has_key(old(self)@, *key) ==> exists|e: (K, V)|
                #[trigger] old(self)@.count(e) > 0 && eqv(e.0, *key) && exists|w: V|
                    call_ensures(f, (e.1,), w) && final(self)@ == old(self)@.remove(e).insert(
                        (e.0, w),
                    ),
            !ms_has_key(old(self)@, *key) ==> final(self)@ == old(self)@,
    {
        broadcast use vstd::multiset::group_multiset_axioms;
        broadcast use vstd::seq_lib::group_to_multiset_ensures;

        let ghost oldtables = self.table@;
        let idx = self.bucket_index(key);
        let ghost oldbucket = oldtables[idx as int];
        proof {
            self.lemma_key_routed(*key);
        }
        self.table[idx].get_mut(key, f);
        proof {
            let newbucket = self.table@[idx as int];
            assert(self.table@ == oldtables.update(idx as int, newbucket));
            lemma_ms_update(oldtables, idx as int, newbucket);
            if has_key(oldbucket@, *key) {
                let i = choose|i: int|
                    0 <= i < oldbucket@.len() && eqv(#[trigger] oldbucket@[i].0, *key)
                        && call_ensures(f, (oldbucket@[i].1,), newbucket@[i].1) && newbucket@
                        == oldbucket@.update(i, (oldbucket@[i].0, newbucket@[i].1));
                let e = oldbucket@[i];
                let w = newbucket@[i].1;
                to_multiset_update(oldbucket@, i, (e.0, w));
                assert(newbucket@.to_multiset() == oldbucket@.to_multiset().insert(
                    (e.0, w),
                ).remove(e));
                assert(oldbucket@.to_multiset().count(e) > 0) by {
                    to_multiset_contains(oldbucket@, e);
                    assert(oldbucket@.contains(e));
                }
                lemma_bucket_member(oldtables, idx as int, e);
                assert forall|x: (K, V)|
                    tables_ms(self.table@).count(x) == tables_ms(oldtables).remove(e).insert(
                        (e.0, w),
                    ).count(x) by {
                    assert(tables_ms(self.table@).add(oldbucket@.to_multiset()).count(x)
                        == tables_ms(oldtables).add(newbucket@.to_multiset()).count(x));
                }
                assert(tables_ms(self.table@) =~= tables_ms(oldtables).remove(e).insert(
                    (e.0, w),
                ));
            } else {
                assert(newbucket@ == oldbucket@);
                assert forall|x: (K, V)|
                    tables_ms(self.table@).count(x) == tables_ms(oldtables).count(x) by {
                    assert(tables_ms(self.table@).add(oldbucket@.to_multiset()).count(x)
                        == tables_ms(oldtables).add(newbucket@.to_multiset()).count(x));
                }
                assert(tables_ms(self.table@) =~= tables_ms(oldtables));
            }
            assert forall|b: int, j: int|
                0 <= b < self.table@.len() && 0 <= j < self.table@[b]@.len() implies bucket_of(
                (#[trigger] self.table@[b]@[j]).0,
                self.seed,
                self.arr_length,
            ) == b by {
                if b != idx as int {
                    assert(self.table@[b] == oldtables[b]);
                    assert(bucket_of(oldtables[b]@[j].0, self.seed, self.arr_length) == b);
                } else {
                    assert(newbucket@[j].0 == oldbucket@[j].0);
                    assert(bucket_of(oldbucket@[j].0, self.seed, self.arr_length) == b);
                }
            }
            assert(self@.len() == old(self)@.len());
        }
    }

    /// How many entries the map holds, across every bucket.
    pub fn len(&self) -> (r: usize)
        requires
            self.well_formed(),
        ensures
            r == self@.len(),
    {
        self.tab_length
    }

    /// Adds one entry: the key is hashed to its bucket and the entry
    /// joins that bucket's tree; every entry already present stays.
    pub fn insert(&mut self, key: K, value: V)
        requires
            old(self).well_formed(),
            old(self)@.len() < i32::MAX,
        ensures
            final(self).well_formed(),
            final(self)@ == old(self)@.insert((key, value)),
            final(self)@.len() == old(self)@.len() + 1,
    {
        broadcast use vstd::multiset::group_multiset_axioms;
        broadcast use vstd::seq_lib::group_to_multiset_ensures;

        let ghost oldtables = self.table@;
        let ghost e = (key, value);
        let idx = self.bucket_index(&key);
        let ghost oldbucket = oldtables[idx as int];
        proof {
            lemma_bucket_len(oldtables, idx as int);
            assert(oldbucket@.to_multiset().len() == oldbucket@.len());
            assert(oldbucket@.len() < i32::MAX);
        }
        self.table[idx].insert(key, value);
        self.tab_length = self.tab_length + 1;
        proof {
            let newbucket = self.table@[idx as int];
            assert(self.table@ == oldtables.update(idx as int, newbucket));
            lemma_ms_update(oldtables, idx as int, newbucket);
            assert(newbucket@.to_multiset() == oldbucket@.to_multiset().insert(e));
            assert forall|x: (K, V)|
                tables_ms(self.table@).count(x) == tables_ms(oldtables).insert(e).count(x) by {
                assert(tables_ms(self.table@).add(oldbucket@.to_multiset()).count(x) == tables_ms(
                    oldtables,
                ).add(newbucket@.to_multiset()).count(x));
            }
            assert(tables_ms(self.table@) =~= tables_ms(oldtables).insert(e));
            let i = choose|i: int|
                0 <= i <= oldbucket@.len() && newbucket@ == oldbucket@.insert(i, e);
            oldbucket@.insert_ensures(i, e);
            assert forall|b: int, j: int|
                0 <= b < self.table@.len() && 0 <= j < self.table@[b]@.len() implies bucket_of(
                (#[trigger] self.table@[b]@[j]).0,
                self.seed,
                self.arr_length,
            ) == b by {
                if b != idx as int {
                    assert(self.table@[b] == oldtables[b]);
                    assert(bucket_of(oldtables[b]@[j].0, self.seed, self.arr_length) == b);
                } else {
                    if j < i {
                        assert(newbucket@[j] == oldbucket@[j]);
                        assert(bucket_of(oldbucket@[j].0, self.seed, self.arr_length) == b);
                    } else if j == i {
                        assert(newbucket@[j] == e);
                    } else {
                        assert(newbucket@[j] == oldbucket@[j - 1]);
                        assert(bucket_of(oldbucket@[j - 1].0, self.seed, self.arr_length) == b);
                    }
                }
            }
            assert(self@.len() == old(self)@.len() + 1);
        }
    }

}

impl<K: HashKey + Dup, V> HashDict<K, V> {
    /// Deletes one entry whose key ties with `key`, out of the bucket
    /// the key hashes to; a missing key changes nothing.
    pub fn delete(&mut self, key: &K)
        requires
            old(self).well_formed(),
        ensures
            final(self).well_formed(),
            ms_has_key(old(self)@, *key) ==> final(self)@.len() == old(self)@.len() - 1
                && exists|e: (K, V)|
                #[trigger] old(self)@.count(e) > 0 && eqv(e.0, *key) && final(self)@ == old(
                    self,
                )@.remove(e),
            !ms_has_key(old(self)@, *key) ==> final(self)@ == old(self)@,
    {
        broadcast use vstd::multiset::group_multiset_axioms;
        broadcast use vstd::seq_lib::group_to_multiset_ensures;

        let ghost oldtables = self.table@;
        let idx = self.bucket_index(key);
        let ghost oldbucket = oldtables[idx as int];
        proof {
            self.lemma_key_routed(*key);
        }
        let found = self.table[idx].key_exist(key.dup());
        if found {
            self.table[idx].delete(key.dup());
            proof {
                let newbucket = self.table@[idx as int];
                assert(self.table@ == oldtables.update(idx as int, newbucket));
                lemma_ms_update(oldtables, idx as int, newbucket);
                let i = choose|i: int|
                    0 <= i < oldbucket@.len() && eqv(#[trigger] oldbucket@[i].0, *key)
                        && newbucket@ == oldbucket@.remove(i);
                let e = oldbucket@[i];
                to_multiset_remove(oldbucket@, i);
                assert(newbucket@.to_multiset() == oldbucket@.to_multiset().remove(e));
                assert(oldbucket@.to_multiset().count(e) > 0) by {
                    to_multiset_contains(oldbucket@, e);
                    assert(oldbucket@.contains(e));
                }
                lemma_bucket_member(oldtables, idx as int, e);
                assert(old(self)@.count(e) > 0);
                assert forall|x: (K, V)|
                    tables_ms(self.table@).count(x) == tables_ms(oldtables).remove(e).count(
                        x,
                    ) by {
                    assert(tables_ms(self.table@).add(oldbucket@.to_multiset()).count(x)
                        == tables_ms(oldtables).add(newbucket@.to_multiset()).count(x));
                }
                assert(tables_ms(self.table@) =~= tables_ms(oldtables).remove(e));
                oldbucket@.remove_ensures(i);
                assert forall|b: int, j: int|
                    0 <= b < self.table@.len() && 0 <= j < self.table@[b]@.len() implies bucket_of(
                    (#[trigger] self.table@[b]@[j]).0,
                    self.seed,
                    self.arr_length,
                ) == b by {
                    if b != idx as int {
                        assert(self.table@[b] == oldtables[b]);
                        assert(bucket_of(oldtables[b]@[j].0, self.seed, self.arr_length) == b);
                    } else {
                        if j < i {
                            assert(newbucket@[j] == oldbucket@[j]);
                            assert(bucket_of(oldbucket@[j].0, self.seed, self.arr_length) == b);
                        } else {
                            assert(newbucket@[j] == oldbucket@[j + 1]);
                            assert(bucket_of(oldbucket@[j + 1].0, self.seed, self.arr_length)
                                == b);
                        }
                    }
                }
                assert(self@.len() == old(self)@.len() - 1);
            }
            self.tab_length = self.tab_length - 1;
        }
    }

}

impl<K: HashKey, V: Dup> HashDict<K, V> {
    /// A copy of the value of some entry whose key ties with `key`,
    /// looked up in the bucket the key hashes to; nothing when no key
    /// ties anywhere in the map.
    pub fn get(&self, key: &K) -> (r: Option<V>)
        requires
            self.well_formed(),
        ensures
            match r {
                Some(v) => exists|e: (K, V)|
                    #[trigger] self@.count(e) > 0 && eqv(e.0, *key) && e.1 == v,
                None => !ms_has_key(self@, *key),
            },
    {
        broadcast use vstd::multiset::group_multiset_axioms;
        broadcast use vstd::seq_lib::group_to_multiset_ensures;

        let idx = self.bucket_index(key);
        proof {
            self.lemma_key_routed(*key);
        }
        let r = self.table[idx].get(key);
        proof {
            let bseq = self.table@[idx as int]@;
            if r is Some {
                let i = choose|i: int|
                    0 <= i < bseq.len() && eqv(#[trigger] bseq[i].0, *key) && bseq[i].1
                        == r.unwrap();
                let e = bseq[i];
                to_multiset_contains(bseq, e);
                assert(bseq.contains(e));
                lemma_bucket_member(self.table@, idx as int, e);
                assert(self@.count(e) > 0 && eqv(e.0, *key) && e.1 == r.unwrap());
            }
        }
        r
    }
}

impl<K: HashKey + Dup, V: Dup> HashDict<K, V> {

    /// Builds a map and pre-populates it: sugar over `new` followed by
    /// one `insert` per pair, in the given order.
    pub fn from_pairs(len: usize, seed: u32, pairs: Vec<(K, V)>) -> (d: Self)
        requires
            len > 0,
            pairs@.len() < i32::MAX,
        ensures
            d.well_formed(),
            d@ == pairs@.to_multiset(),
            d@.len() == pairs@.len(),
    {
        broadcast use vstd::multiset::group_multiset_axioms;
        broadcast use vstd::seq_lib::group_to_multiset_ensures;

        let ghost pairseq = pairs@;
        let mut d = HashDict::new(len, seed);
        let mut rest = pairs;
        proof {
            assert(rest@.to_multiset() =~= pairseq.to_multiset().add(d@));
        }
        let mut i: usize = 0;
        while i < rest.len()
            invariant
                d.well_formed(),
                i <= rest@.len(),
                rest@ == pairseq,
                pairseq.len() < i32::MAX,
                d@ == pairseq.take(i as int).to_multiset(),
                d@.len() == i,
            decreases rest@.len() - i,
        {
            let k = rest[i].0.dup();
            let v = rest[i].1.dup();
            d.insert(k, v);
            proof {
                assert(pairseq.take(i + 1) =~= pairseq.take(i as int).push(pairseq[i as int]));
                vstd::seq_lib::to_multiset_build(pairseq.take(i as int), pairseq[i as int]);
            }
            i = i + 1;
        }
        proof {
            assert(pairseq.take(pairseq.len() as int) =~= pairseq);
        }
        d
    }

    /// Takes one entry whose key ties with `key` out of the map and
    /// hands its value back: a lookup followed by a deletion, as two
    /// tied entries may differ the value handed back may belong to
    /// either.
    pub fn pop(&mut self, key: &K) -> (r: Option<V>)
        requires
            old(self).well_formed(),
        ensures
            final(self).well_formed(),
            match r {
                Some(v) => {
                    &&& exists|e: (K, V)|
                        #[trigger] old(self)@.count(e) > 0 && eqv(e.0, *key) && e.1 == v
                    &&& final(self)@.len() == old(self)@.len() - 1
                    &&& exists|e: (K, V)|
                        #[trigger] old(self)@.count(e) > 0 && eqv(e.0, *key) && final(self)@
                            == old(self)@.remove(e)
                },
                None => !ms_has_key(old(self)@, *key) && final(self)@ == old(self)@,
            },
    {
        match self.get(key) {
            Some(v) => {
                proof {
                    let e = choose|e: (K, V)|
                        #[trigger] self@.count(e) > 0 && eqv(e.0, *key) && e.1 == v;
                    assert(ms_has_key(self@, *key));
                }
                self.delete(key);
                Some(v)
            },
            None => None,
        }
    }
}

impl<K: HashKey + Dup, V: Dup> HashDict<K, V> {
    /// The map's whole content as one snapshot vector, bucket by
    /// bucket.
    fn stack_items(&self) -> (r: Vec<(K, V)>)
        requires
            self.well_formed(),
        ensures
            r@.to_multiset() == self@,
    {
        broadcast use vstd::multiset::group_multiset_axioms;
        broadcast use vstd::seq_lib::group_to_multiset_ensures;

        let mut stack: Vec<(K, V)> = Vec::new();
        proof {
            assert(stack@.to_multiset().len() == 0);
            assert(stack@.to_multiset() =~= tables_ms(self.table@.take(0)));
        }
        let n = self.table.len();
        let mut b: usize = 0;
        while b < n
            invariant
                self.well_formed(),
                n == self.table@.len(),
                b <= n,
                stack@.to_multiset() == tables_ms(self.table@.take(b as int)),
            decreases n - b,
        {
            let ghost outer = stack@;
            let mut it = self.table[b].iter();
            proof {
                assert(stack@ + it@ == outer + self.table@[b as int]@);
            }
            let mut done = false;
            while !done
                invariant
                    it.well_formed(),
                    stack@ + it@ == outer + self.table@[b as int]@,
                    done ==> it@.len() == 0,
                decreases it@.len() + (if done {
                    0int
                } else {
                    1int
                }),
            {
                let nx = it.next();
                match nx {
                    Some(entry) => {
                        proof {
                            assert(stack@.push(entry) + it@ =~= outer
                                + self.table@[b as int]@);
                        }
                        stack.push(entry);
                    },
                    None => {
                        done = true;
                    },
                }
            }
            proof {
                assert(it@.len() == 0);
                assert(stack@ =~= outer + self.table@[b as int]@);
                vstd::seq_lib::lemma_multiset_commutative(outer, self.table@[b as int]@);
                lemma_ms_take_step(self.table@, b as int);
            }
            b = b + 1;
        }
        proof {
            assert(self.table@.take(n as int) =~= self.table@);
        }
        stack
    }

    /// A fresh snapshot of every entry across every bucket, sorted by
    /// key.
    pub fn iter(&self) -> (it: HashDictIter<K, V>)
        requires
            self.well_formed(),
        ensures
            it.well_formed(),
            entries_sorted(it@),
            it@.to_multiset() == self@,
    {
        let items = self.stack_items();
        let sorted_items = sort_entries(items);
        let it = HashDictIter { items: sorted_items, pos: 0 };
        proof {
            assert(it@ =~= sorted_items@);
        }
        it
    }
}

} // verus!
