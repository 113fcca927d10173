//! An in-flight transaction.

use std::collections::BTreeMap;
use vstd::prelude::*;
use vstd::std_specs::iter::IteratorSpec;

use crate::vol;

verus! {

broadcast use vstd::std_specs::btree::group_btree_axioms;

/// New contents for metadata blocks, keyed by block address. Data blocks are
/// not journaled (ordered mode): write them in place before committing the
/// metadata that references them.
pub struct Txn {
    pub blocks: BTreeMap<u64, Vec<u8>>,
}

impl View for Txn {
    type V = Map<u64, Seq<u8>>;

    open spec fn view(&self) -> Map<u64, Seq<u8>> {
        self.blocks@.map_values(|b: Vec<u8>| b@)
    }
}

impl Default for Txn {
    fn default() -> (r: Self)
        ensures
            r@ == Map::<u64, Seq<u8>>::empty(),
    {
        let r = Txn { blocks: BTreeMap::new() };
        assert(r@ =~= Map::<u64, Seq<u8>>::empty());
        r
    }
}

/// `ks` lists the keys of `t` in ascending order.
pub open spec fn lists_keys(ks: Seq<u64>, t: Map<u64, Seq<u8>>) -> bool {
    &&& forall|i: int, j: int| 0 <= i < j < ks.len() ==> ks[i] < ks[j]
    &&& forall|k: u64| ks.contains(k) <==> #[trigger] t.contains_key(k)
}

/// The addresses of a transaction's blocks, in ascending order.
pub open spec fn order(t: Map<u64, Seq<u8>>) -> Seq<u64> {
    choose|ks: Seq<u64>| lists_keys(ks, t)
}

/// There is but one ascending list of the keys.
pub proof fn lemma_order_unique(a: Seq<u64>, b: Seq<u64>, t: Map<u64, Seq<u8>>)
    requires
        lists_keys(a, t),
        lists_keys(b, t),
    ensures
        a == b,
    decreases a.len(),
{
    if a.len() == 0 {
        if b.len() > 0 {
            assert(b.contains(b[0]));
            assert(t.contains_key(b[0]));
            assert(a.contains(b[0]));
        }
        assert(a =~= b);
    } else {
        let x = a.last();
        assert(a.contains(x));
        assert(t.contains_key(x));
        assert(b.contains(x));
        let y = b.last();
        assert(b.contains(y));
        assert(t.contains_key(y));
        assert(a.contains(y));
        let i = choose|i: int| 0 <= i < b.len() && b[i] == x;
        let j = choose|j: int| 0 <= j < a.len() && a[j] == y;
        assert(x == y);
        let t1 = t.remove(x);
        assert forall|k: u64| a.drop_last().contains(k) <==> #[trigger] t1.contains_key(k) by {
            if a.drop_last().contains(k) {
                let n = choose|n: int| 0 <= n < a.drop_last().len() && a.drop_last()[n] == k;
                assert(a[n] == k && a[n] < a[a.len() - 1]);
                assert(a.contains(k));
                assert(t.contains_key(k));
            }
            if t1.contains_key(k) {
                assert(t.contains_key(k));
                assert(a.contains(k));
                let n = choose|n: int| 0 <= n < a.len() && a[n] == k;
                assert(a.drop_last()[n] == k);
            }
        }
        assert forall|k: u64| b.drop_last().contains(k) <==> #[trigger] t1.contains_key(k) by {
            if b.drop_last().contains(k) {
                let n = choose|n: int| 0 <= n < b.drop_last().len() && b.drop_last()[n] == k;
                assert(b[n] == k && b[n] < b[b.len() - 1]);
                assert(b.contains(k));
                assert(t.contains_key(k));
            }
            if t1.contains_key(k) {
                assert(t.contains_key(k));
                assert(b.contains(k));
                let n = choose|n: int| 0 <= n < b.len() && b[n] == k;
                assert(b.drop_last()[n] == k);
            }
        }
        lemma_order_unique(a.drop_last(), b.drop_last(), t1);
        assert(a =~= a.drop_last().push(x));
        assert(b =~= b.drop_last().push(x));
    }
}

/// A set of addresses that is not empty has a largest one.
pub proof fn lemma_largest(s: Set<u64>) -> (x: u64)
    requires
        s.finite(),
        s.len() > 0,
    ensures
        s.contains(x),
        forall|y: u64| s.contains(y) ==> y <= x,
    decreases s.len(),
{
    let a = s.choose();
    let rest = s.remove(a);
    if rest.len() == 0 {
        assert forall|y: u64| s.contains(y) implies y <= a by {
            if y != a {
                assert(rest.contains(y));
            }
        }
        a
    } else {
        let b = lemma_largest(rest);
        let x = if a < b { b } else { a };
        assert forall|y: u64| s.contains(y) implies y <= x by {
            if y != a {
                assert(rest.contains(y));
            }
        }
        x
    }
}

/// A finite transaction has an ascending list of its keys.
pub proof fn lemma_order_exists(t: Map<u64, Seq<u8>>) -> (ks: Seq<u64>)
    requires
        t.dom().finite(),
    ensures
        lists_keys(ks, t),
        ks.len() == t.dom().len(),
    decreases t.dom().len(),
{
    if t.dom().len() == 0 {
        assert forall|k: u64| Seq::<u64>::empty().contains(k) <==> #[trigger] t.contains_key(
            k,
        ) by {
            if t.contains_key(k) {
                assert(t.dom().contains(k));
            }
        }
        Seq::empty()
    } else {
        let x = lemma_largest(t.dom());
        let t1 = t.remove(x);
        assert(t1.dom() =~= t.dom().remove(x));
        let ks = lemma_order_exists(t1);
        let all = ks.push(x);
        assert forall|i: int, j: int| 0 <= i < j < all.len() implies all[i] < all[j] by {
            if j == ks.len() {
                assert(ks.contains(ks[i]));
                assert(t1.contains_key(ks[i]));
                assert(t.dom().contains(ks[i]));
            }
        }
        assert forall|k: u64| all.contains(k) <==> #[trigger] t.contains_key(k) by {
            if all.contains(k) && k != x {
                let i = choose|i: int| 0 <= i < all.len() && all[i] == k;
                assert(ks[i] == k);
                assert(ks.contains(k));
                assert(t1.contains_key(k));
            }
            if t.contains_key(k) {
                if k == x {
                    assert(all[ks.len() as int] == k);
                } else {
                    assert(t1.contains_key(k));
                    assert(ks.contains(k));
                    let i = choose|i: int| 0 <= i < ks.len() && ks[i] == k;
                    assert(all[i] == k);
                }
            }
        }
        all
    }
}

/// The list of keys of a finite transaction.
pub proof fn lemma_order_lists(t: Map<u64, Seq<u8>>)
    requires
        t.dom().finite(),
    ensures
        lists_keys(order(t), t),
        order(t).len() == t.dom().len(),
{
    let ks = lemma_order_exists(t);
    lemma_order_unique(ks, order(t), t);
}

impl Txn {
    /// Blocks of `bs` bytes throughout.
    pub open spec fn wf(&self, bs: u32) -> bool {
        vol::txn_ok(self@, bs)
    }

    pub fn is_empty(&self) -> (r: bool)
        ensures
            r == (self@.dom() == Set::<u64>::empty()),
    {
        assert(self@.dom() =~= self.blocks@.dom());
        let r = self.blocks.is_empty();
        proof {
            if r {
                assert(self@.dom() =~= Set::<u64>::empty());
            }
        }
        r
    }

    /// What the transaction holds for a block.
    pub fn get(&self, blk: u64) -> (r: Option<Vec<u8>>)
        ensures
            match r {
                Some(b) => self@.contains_key(blk) && b@ == self@[blk],
                None => !self@.contains_key(blk),
            },
    {
        match self.blocks.get(&blk) {
            Some(b) => Some(b.clone()),
            None => None,
        }
    }

    /// A block that the transaction holds.
    pub fn block(&self, blk: u64) -> (r: &Vec<u8>)
        requires
            self@.contains_key(blk),
        ensures
            r@ == self@[blk],
    {
        self.blocks.get(&blk).unwrap()
    }

    /// Set the contents of a block.
    pub fn put(&mut self, blk: u64, data: Vec<u8>)
        ensures
            final(self)@ == old(self)@.insert(blk, data@),
    {
        self.blocks.insert(blk, data);
        assert(self@ =~= old(self)@.insert(blk, data@));
    }

    /// The addresses of the blocks, ascending.
    pub fn targets(&self) -> (r: Vec<u64>)
        ensures
            r@ == order(self@),
            lists_keys(r@, self@),
            r@.len() == self@.dom().len(),
            self@.dom().finite(),
    {
        let mut ks: Vec<u64> = Vec::new();
        assert(self@.dom() =~= self.blocks@.dom());
        let iter = self.blocks.iter();
        let ghost all = iter.remaining();
        let ghost keys = all.map_values(|kv: (&u64, &Vec<u8>)| *kv.0);
        for kv in it: iter
            invariant
                ks@.len() == it.index(),
                it.seq() == all,
                forall|i: int| 0 <= i < ks@.len() ==> ks@[i] == *(#[trigger] it.seq()[i]).0,
        {
            ks.push(*kv.0);
        }
        proof {
            broadcast use vstd::laws_cmp::group_laws_cmp;

            assert(ks@ =~= keys);
            assert(vstd::laws_cmp::obeys_cmp::<u64>());
            assert(vstd::std_specs::btree::increasing_seq(keys));
            assert forall|i: int, j: int| 0 <= i < j < ks@.len() implies ks@[i] < ks@[j] by {
                assert(vstd::std_specs::cmp::OrdSpec::cmp_spec(&keys[i], &keys[j]) is Less);
            }
            assert forall|k: u64| ks@.contains(k) <==> #[trigger] self@.contains_key(k) by {
                if ks@.contains(k) {
                    let i = choose|i: int| 0 <= i < ks@.len() && ks@[i] == k;
                    assert(self.blocks@.contains_key(*all[i].0));
                }
                if self@.contains_key(k) {
                    assert(self.blocks@.contains_key(k));
                    assert(all.contains((&k, &self.blocks@[k])));
                    let i = choose|i: int|
                        0 <= i < all.len() && all[i] == (&k, &self.blocks@[k]);
                    assert(ks@[i] == k);
                }
            }
            assert(lists_keys(ks@, self@));
            lemma_order_unique(ks@, order(self@), self@);
        }
        ks
    }
}

} // verus!
