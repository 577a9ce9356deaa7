use vstd::prelude::*;
use crate::rng::sample_indices;

verus! {

/// A fixed-capacity store of the most recent items: once full, each new item
/// replaces the oldest one.
pub struct ReplayBuffer<T> {
    capacity: usize,
    buffer: Vec<T>,
    pos: usize,
}

/// The last `c` items of `es` (all of them when there are no more than `c`).
pub open spec fn last_items<T>(es: Seq<T>, c: nat) -> Seq<T> {
    if es.len() <= c {
        es
    } else {
        es.skip(es.len() - c)
    }
}

/// Adding keeps the most recent items: when a buffer of capacity `c > 0`
/// holds the last `c` of the items `es` added so far, the contents that
/// `add(e)` leaves (pushed while not full, otherwise the oldest dropped first)
/// are the last `c` of `es` followed by `e`. Starting from the empty buffer
/// that `new` makes, after `k` adds it holds the last `min(k, c)` items in the
/// order they were added.
pub proof fn lemma_add_keeps_last<T>(before: Seq<T>, after: Seq<T>, es: Seq<T>, e: T, c: nat)
    requires
        c > 0,
        before == last_items(es, c),
        before.len() < c ==> after == before.push(e),
        before.len() == c ==> after == before.drop_first().push(e),
    ensures
        after == last_items(es.push(e), c),
        after.len() == (if es.len() + 1 < c { (es.len() + 1) as int } else { c as int }),
{
    let es2 = es.push(e);
    if es.len() < c {
        assert(after =~= last_items(es2, c));
    } else if es.len() == c {
        assert(es2.skip(es2.len() - c) =~= es.drop_first().push(e));
    } else {
        assert(es2.skip(es2.len() - c) =~= es.skip(es.len() - c).drop_first().push(e));
    }
}

impl<T> ReplayBuffer<T> {
    /// The fill level and the write position agree with the capacity.
    pub closed spec fn wf(&self) -> bool {
        &&& self.buffer@.len() <= self.capacity
        &&& self.buffer@.len() < self.capacity ==> self.pos == 0
        &&& (self.pos == 0 || self.pos < self.buffer@.len())
    }

    /// The largest number of items kept.
    pub closed spec fn max_items(&self) -> nat {
        self.capacity as nat
    }

    /// The items as they are stored.
    pub closed spec fn slots(&self) -> Seq<T> {
        self.buffer@
    }

    /// The items from the oldest to the newest.
    pub closed spec fn items(&self) -> Seq<T> {
        self.buffer@.skip(self.pos as int) + self.buffer@.take(self.pos as int)
    }

    /// The slot that holds the oldest item.
    pub closed spec fn oldest(&self) -> int {
        self.pos as int
    }

    /// The items, oldest first, are the slots read round from the slot of the
    /// oldest item: the same items, each as often.
    pub proof fn lemma_items_rotate_slots(&self)
        requires
            self.wf(),
        ensures
            0 <= self.oldest() <= self.slots().len(),
            self.items() == self.slots().skip(self.oldest()) + self.slots().take(self.oldest()),
            self.items().len() == self.slots().len(),
            self.items().to_multiset() == self.slots().to_multiset(),
    {
        let b = self.buffer@;
        let p = self.pos as int;
        assert(b =~= b.take(p) + b.skip(p));
        vstd::seq_lib::lemma_multiset_commutative(b.take(p), b.skip(p));
        vstd::seq_lib::lemma_multiset_commutative(b.skip(p), b.take(p));
        assert(b.take(p).to_multiset().add(b.skip(p).to_multiset()) =~= b.skip(p).to_multiset().add(
            b.take(p).to_multiset(),
        ));
    }

    pub fn new(capacity: usize) -> (b: Self)
        ensures
            b.wf(),
            b.max_items() == capacity,
            b.items() == Seq::<T>::empty(),
            b.slots() == Seq::<T>::empty(),
    {
        let b = ReplayBuffer { capacity, buffer: Vec::with_capacity(capacity), pos: 0 };
        assert(b.buffer@.skip(0) + b.buffer@.take(0) =~= Seq::<T>::empty());
        b
    }

    /// Stores `exp`; when the buffer is full it replaces the oldest item.
    pub fn add(&mut self, exp: T)
        requires
            old(self).wf(),
            old(self).max_items() > 0,
        ensures
            final(self).wf(),
            final(self).max_items() == old(self).max_items(),
            final(self).items().len() <= final(self).max_items(),
            old(self).items().len() < old(self).max_items() ==> final(self).items() == old(
                self,
            ).items().push(exp),
            old(self).items().len() == old(self).max_items() ==> final(self).items() == old(
                self,
            ).items().drop_first().push(exp),
    {
        let ghost old_items = self.items();
        let ghost b0 = self.buffer@;
        let ghost p0 = self.pos as int;
        if self.buffer.len() < self.capacity {
            self.buffer.push(exp);
            assert(b0.skip(0) + b0.take(0) =~= b0);
            assert(self.buffer@.skip(0) + self.buffer@.take(0) =~= self.buffer@);
        } else {
            self.buffer.set(self.pos, exp);
            self.pos = (self.pos + 1) % self.capacity;
            proof {
                let b1 = self.buffer@;
                if p0 + 1 < self.capacity {
                    vstd::arithmetic::div_mod::lemma_small_mod((p0 + 1) as nat, self.capacity as nat);
                    assert(b1.skip(p0 + 1) + b1.take(p0 + 1) =~= (b0.skip(p0) + b0.take(p0)).drop_first().push(exp));
                } else {
                    vstd::arithmetic::div_mod::lemma_mod_self_0(self.capacity as int);
                    assert(b1.skip(0) + b1.take(0) =~= (b0.skip(p0) + b0.take(p0)).drop_first().push(exp));
                }
            }
        }
    }

    /// The stored items at the given slots, in the order of `ix`.
    pub fn gather(&self, ix: &Vec<usize>) -> (r: Vec<&T>)
        requires
            forall|k: int| 0 <= k < ix@.len() ==> #[trigger] ix@[k] < self.slots().len(),
        ensures
            r@.len() == ix@.len(),
            forall|k: int| 0 <= k < ix@.len() ==> *r@[k] == self.slots()[#[trigger] ix@[k] as int],
    {
        let mut r: Vec<&T> = Vec::new();
        let mut k: usize = 0;
        while k < ix.len()
            invariant
                k <= ix@.len(),
                forall|q: int| 0 <= q < ix@.len() ==> #[trigger] ix@[q] < self.buffer@.len(),
                r@.len() == k,
                forall|q: int| 0 <= q < k ==> *r@[q] == self.buffer@[#[trigger] ix@[q] as int],
            decreases ix@.len() - k,
        {
            r.push(&self.buffer[ix[k]]);
            k = k + 1;
        }
        r
    }

    /// Up to `batch_size` distinct stored items, chosen at random among all of
    /// them: `min(batch_size, len)` distinct slots drawn from every slot.
    pub fn sample(&self, batch_size: usize) -> (r: Vec<&T>)
        ensures
            r@.len() == if batch_size < self.slots().len() { batch_size as nat } else { self.slots().len() },
            exists|ix: Seq<usize>|
                #![trigger ix.len()]
                ix.len() == r@.len() && ix.no_duplicates() && forall|k: int|
                    0 <= k < ix.len() ==> #[trigger] ix[k] < self.slots().len() && *r@[k] == self.slots()[ix[k] as int],
    {
        let len = self.buffer.len();
        let amount = if batch_size < len { batch_size } else { len };
        let ix = sample_indices(len, amount);
        let r = self.gather(&ix);
        assert(ix@.len() == r@.len() && ix@.no_duplicates());
        r
    }

    /// The largest number of items kept.
    pub fn capacity(&self) -> (c: usize)
        ensures
            c == self.max_items(),
    {
        self.capacity
    }

    /// The number of stored items.
    pub fn len(&self) -> (n: usize)
        requires
            self.wf(),
        ensures
            n == self.slots().len(),
            n == self.items().len(),
            n <= self.max_items(),
    {
        assert(self.pos <= self.buffer@.len());
        assert(self.items().len() == self.buffer@.len());
        self.buffer.len()
    }

}

} // verus!
