use std::collections::hash_map::DefaultHasher;
use std::hash::Hasher;
use vstd::prelude::*;
use vstd::slice::slice_to_vec;
#[allow(unused_imports)]
use vstd::std_specs::hash::DefaultHasherAdditionalSpecFns;

use crate::util::Bytes;

verus! {

/// Number of buckets a fresh store starts with.
pub const START_CAPACITY: usize = 16usize;

/// Largest bucket count the store ever grows to; it keeps index arithmetic in range.
pub open spec fn max_capacity() -> int {
    usize::MAX as int / 4
}

/// How a key store turns a key into a hash. A hasher must be deterministic:
/// the hash of a key is a function of the hasher and the key's bytes.
pub trait KeyHasher {
    spec fn spec_hash(&self, key: Seq<u8>) -> u64;

    fn hash_key(&self, key: &[u8]) -> (h: u64)
        ensures
            h == self.spec_hash(key@),
    ;
}

/// The hasher a store uses unless it is given another: SipHash through
/// `std::collections::hash_map::DefaultHasher`, fed the key's bytes.
pub struct DefaultKeyHasher;

impl KeyHasher for DefaultKeyHasher {
    open spec fn spec_hash(&self, key: Seq<u8>) -> u64 {
        DefaultHasher::spec_finish(seq![key])
    }

    fn hash_key(&self, key: &[u8]) -> (h: u64) {
        let mut hasher = DefaultHasher::new();
        hasher.write(key);
        hasher.finish()
    }
}

/// One occupied bucket: the key, its value, its probe sequence length (the
/// distance from the bucket the key hashes to), and the key's hash.
pub struct Entry<V> {
    key: Bytes,
    value: V,
    psl: usize,
    hash: u64,
}

impl<V> Entry<V> {
    pub closed spec fn spec_key(&self) -> Seq<u8> {
        self.key@
    }

    pub closed spec fn spec_value(&self) -> V {
        self.value
    }

    pub closed spec fn spec_psl(&self) -> usize {
        self.psl
    }

    pub closed spec fn spec_hash(&self) -> u64 {
        self.hash
    }

    /// An entry that sits in the bucket its hash points to.
    pub fn new(key: Bytes, value: V, hash: u64) -> (e: Self)
        ensures
            e.spec_key() == key@,
            e.spec_value() == value,
            e.spec_psl() == 0,
            e.spec_hash() == hash,
    {
        Self { key, value, psl: 0, hash }
    }

    pub fn key(&self) -> (k: &Bytes)
        ensures
            k@ == self.spec_key(),
    {
        &self.key
    }

    pub fn value(&self) -> (v: &V)
        ensures
            *v == self.spec_value(),
    {
        &self.value
    }

    pub fn psl(&self) -> (p: usize)
        ensures
            p == self.spec_psl(),
    {
        self.psl
    }

    pub fn hash(&self) -> (h: u64)
        ensures
            h == self.spec_hash(),
    {
        self.hash
    }
}

/// `x` taken back into `0..cap`, for `0 <= x < 2 * cap`.
pub open spec fn wrap(x: int, cap: int) -> int {
    if x < cap {
        x
    } else {
        x - cap
    }
}

/// The bucket a hash points to.
pub open spec fn home(h: u64, cap: int) -> int {
    h as int % cap
}

/// The bucket `d` steps after the one a hash points to.
pub open spec fn slot(h: u64, d: int, cap: int) -> int {
    wrap(home(h, cap) + d, cap)
}

pub open spec fn prev(i: int, cap: int) -> int {
    if i == 0 {
        cap - 1
    } else {
        i - 1
    }
}

pub open spec fn next(i: int, cap: int) -> int {
    if i + 1 == cap {
        0
    } else {
        i + 1
    }
}

/// How many steps forward it takes to get from bucket `i` to bucket `e`.
pub open spec fn dist(e: int, i: int, cap: int) -> int {
    if e >= i {
        e - i
    } else {
        e + cap - i
    }
}

pub open spec fn occ<V>(b: Seq<Option<Entry<V>>>, i: int) -> bool {
    0 <= i < b.len() && b[i] is Some
}

pub open spec fn ent<V>(b: Seq<Option<Entry<V>>>, i: int) -> Entry<V> {
    b[i]->0
}

pub open spec fn has_key<V>(b: Seq<Option<Entry<V>>>, i: int, k: Seq<u8>) -> bool {
    occ(b, i) && ent(b, i).spec_key() == k
}

pub open spec fn keys_in<V>(b: Seq<Option<Entry<V>>>, k: Seq<u8>) -> bool {
    exists|i: int| has_key(b, i, k)
}

/// The entry in bucket `i` carries its key's hash and sits `psl` steps after its home.
pub open spec fn placed<V, S: KeyHasher>(b: Seq<Option<Entry<V>>>, s: S, i: int) -> bool {
    let e = ent(b, i);
    &&& e.spec_hash() == s.spec_hash(e.spec_key())
    &&& e.spec_psl() < b.len()
    &&& slot(e.spec_hash(), e.spec_psl() as int, b.len() as int) == i
}

/// The Robin Hood ordering, stated between neighbours: an entry that is not in
/// its home bucket follows an occupied bucket whose entry is at most one step
/// closer to its own home.
pub open spec fn rh_ok<V>(b: Seq<Option<Entry<V>>>, i: int) -> bool {
    ent(b, i).spec_psl() > 0 ==> {
        &&& occ(b, prev(i, b.len() as int))
        &&& ent(b, prev(i, b.len() as int)).spec_psl() + 1 >= ent(b, i).spec_psl()
    }
}

pub open spec fn layout_ok<V, S: KeyHasher>(b: Seq<Option<Entry<V>>>, s: S) -> bool {
    &&& b.len() > 0
    &&& forall|i: int| #[trigger] occ(b, i) ==> placed(b, s, i) && rh_ok(b, i)
}

pub open spec fn distinct<V>(b: Seq<Option<Entry<V>>>) -> bool {
    forall|i: int, j: int|
        #[trigger] occ(b, i) && #[trigger] occ(b, j) && i != j ==> ent(b, i).spec_key() != ent(
            b,
            j,
        ).spec_key()
}

/// Number of occupied buckets.
pub open spec fn count<V>(b: Seq<Option<Entry<V>>>) -> nat
    decreases b.len(),
{
    if b.len() == 0 {
        0
    } else {
        count(b.drop_last()) + if b.last() is Some {
            1nat
        } else {
            0nat
        }
    }
}

/// The map that the buckets hold.
pub open spec fn map_of<V>(b: Seq<Option<Entry<V>>>) -> Map<Seq<u8>, V>
    decreases b.len(),
{
    if b.len() == 0 {
        Map::empty()
    } else {
        let m = map_of(b.drop_last());
        match b.last() {
            Some(e) => m.insert(e.spec_key(), e.spec_value()),
            None => m,
        }
    }
}

/// Bucket `slot(h, d)` was probed for key `k` and passed: it holds another key
/// that is at least `d` steps from its home.
pub open spec fn probe_ok<V>(b: Seq<Option<Entry<V>>>, h: u64, k: Seq<u8>, d: int) -> bool {
    let i = slot(h, d, b.len() as int);
    &&& occ(b, i)
    &&& ent(b, i).spec_psl() >= d
    &&& ent(b, i).spec_key() != k
}

/// Every bucket before `slot(h, p)` on the probe path of `h` is occupied by an
/// entry at least as far from its home as the path is long there.
pub open spec fn path_ok<V>(b: Seq<Option<Entry<V>>>, h: u64, p: int) -> bool {
    forall|d: int|
        0 <= d < p ==> #[trigger] occ(b, slot(h, d, b.len() as int)) && ent(
            b,
            slot(h, d, b.len() as int),
        ).spec_psl() >= d
}

proof fn lemma_slot_step(h: u64, d: int, cap: int)
    requires
        cap > 0,
        0 <= d < cap,
    ensures
        0 <= home(h, cap) < cap,
        0 <= slot(h, d, cap) < cap,
        0 <= slot(h, d + 1, cap) < cap,
        prev(slot(h, d + 1, cap), cap) == slot(h, d, cap),
        next(slot(h, d, cap), cap) == slot(h, d + 1, cap),
{
}

proof fn lemma_slot_range(h: u64, d: int, cap: int)
    requires
        cap > 0,
        0 <= d <= cap,
    ensures
        0 <= home(h, cap) < cap,
        0 <= slot(h, d, cap) < cap,
{
}

/// Distinct steps below `cap` lead to distinct buckets.
proof fn lemma_slot_injective(h: u64, d1: int, d2: int, cap: int)
    requires
        cap > 0,
        0 <= d1 < cap,
        0 <= d2 < cap,
        d1 != d2,
    ensures
        slot(h, d1, cap) != slot(h, d2, cap),
{
}

/// Every bucket lies on every probe path, within `cap` steps.
proof fn lemma_slot_cover(h: u64, x: int, cap: int)
    requires
        cap > 0,
        0 <= x < cap,
    ensures
        0 <= dist(x, home(h, cap), cap) < cap,
        slot(h, dist(x, home(h, cap), cap), cap) == x,
{
}

/// Walking back along the probe path of an entry meets only occupied buckets
/// whose entries are at least as far from home as the path is long there.
proof fn lemma_chain<V, S: KeyHasher>(b: Seq<Option<Entry<V>>>, s: S, j: int, d: int)
    requires
        layout_ok(b, s),
        occ(b, j),
        0 <= d <= ent(b, j).spec_psl(),
    ensures
        occ(b, slot(ent(b, j).spec_hash(), d, b.len() as int)),
        ent(b, slot(ent(b, j).spec_hash(), d, b.len() as int)).spec_psl() >= d,
    decreases ent(b, j).spec_psl() - d,
{
    let cap = b.len() as int;
    let h = ent(b, j).spec_hash();
    assert(placed(b, s, j) && rh_ok(b, j));
    if d < ent(b, j).spec_psl() {
        lemma_chain(b, s, j, d + 1);
        lemma_slot_step(h, d, cap);
        let i1 = slot(h, d + 1, cap);
        assert(placed(b, s, i1) && rh_ok(b, i1));
    }
}

/// A probe for `k` that passed buckets `0..p` of its path and then met an empty
/// bucket, or an entry closer to its home than `p`, shows that `k` is absent.
proof fn lemma_absent<V, S: KeyHasher>(b: Seq<Option<Entry<V>>>, s: S, k: Seq<u8>, h: u64, p: int)
    requires
        layout_ok(b, s),
        h == s.spec_hash(k),
        0 <= p <= b.len(),
        forall|d: int| 0 <= d < p ==> #[trigger] probe_ok(b, h, k, d),
        !occ(b, slot(h, p, b.len() as int)) || ent(b, slot(h, p, b.len() as int)).spec_psl() < p,
    ensures
        !keys_in(b, k),
{
    if keys_in(b, k) {
        let j = choose|j: int| has_key(b, j, k);
        assert(placed(b, s, j));
        let dd = ent(b, j).spec_psl() as int;
        if dd < p {
            assert(probe_ok(b, h, k, dd));
        } else {
            lemma_chain(b, s, j, p);
        }
    }
}

proof fn lemma_distinct_prefix<V>(b: Seq<Option<Entry<V>>>)
    requires
        distinct(b),
        b.len() > 0,
    ensures
        distinct(b.drop_last()),
        forall|k: Seq<u8>| #[trigger] keys_in(b.drop_last(), k) ==> keys_in(b, k),
{
    let p = b.drop_last();
    assert forall|i: int, j: int| #[trigger] occ(p, i) && #[trigger] occ(p, j) && i != j implies ent(
        p,
        i,
    ).spec_key() != ent(p, j).spec_key() by {
        assert(occ(b, i) && occ(b, j));
    }
    assert forall|k: Seq<u8>| #[trigger] keys_in(p, k) implies keys_in(b, k) by {
        let i = choose|i: int| has_key(p, i, k);
        assert(has_key(b, i, k));
    }
}

/// What the buckets hold, entry by entry, when no key occurs twice.
proof fn lemma_map_of<V>(b: Seq<Option<Entry<V>>>)
    requires
        distinct(b),
    ensures
        map_of(b).dom().finite(),
        map_of(b).dom().len() == count(b),
        count(b) <= b.len(),
        forall|k: Seq<u8>| #[trigger] map_of(b).contains_key(k) <==> keys_in(b, k),
        forall|i: int| #[trigger]
            occ(b, i) ==> map_of(b)[ent(b, i).spec_key()] == ent(b, i).spec_value(),
    decreases b.len(),
{
    if b.len() > 0 {
        let p = b.drop_last();
        let n = b.len() - 1;
        lemma_distinct_prefix(b);
        lemma_map_of(p);
        assert forall|k: Seq<u8>| #[trigger] map_of(b).contains_key(k) <==> keys_in(b, k) by {
            if map_of(b).contains_key(k) {
                if map_of(p).contains_key(k) {
                    let i = choose|i: int| has_key(p, i, k);
                    assert(has_key(b, i, k));
                } else {
                    assert(has_key(b, n, k));
                }
            }
            if keys_in(b, k) {
                let i = choose|i: int| has_key(b, i, k);
                if i < n {
                    assert(has_key(p, i, k));
                }
            }
        }
        if b.last() is Some {
            let e = b.last()->0;
            assert(!keys_in(p, e.spec_key())) by {
                if keys_in(p, e.spec_key()) {
                    let i = choose|i: int| has_key(p, i, e.spec_key());
                    assert(occ(b, i) && occ(b, n));
                }
            }
        }
        assert forall|i: int| #[trigger] occ(b, i) implies map_of(b)[ent(b, i).spec_key()] == ent(
            b,
            i,
        ).spec_value() by {
            if i < n {
                assert(occ(p, i));
                if b.last() is Some {
                    assert(occ(b, n));
                }
            }
        }
    }
}

/// A sequence of buckets with fewer entries than buckets has an empty bucket.
proof fn lemma_has_empty<V>(b: Seq<Option<Entry<V>>>)
    requires
        count(b) < b.len(),
    ensures
        exists|i: int| 0 <= i < b.len() && !occ(b, i),
    decreases b.len(),
{
    let p = b.drop_last();
    if b.last() is None {
        assert(!occ(b, b.len() - 1));
    } else {
        lemma_has_empty(p);
        let i = choose|i: int| 0 <= i < p.len() && !occ(p, i);
        assert(!occ(b, i));
    }
}

proof fn lemma_count_bound<V>(b: Seq<Option<Entry<V>>>)
    ensures
        count(b) <= b.len(),
    decreases b.len(),
{
    if b.len() > 0 {
        lemma_count_bound(b.drop_last());
    }
}

/// Two bucket sequences that hold the same keys with the same values hold the same map.
proof fn lemma_same_map<V>(b1: Seq<Option<Entry<V>>>, b2: Seq<Option<Entry<V>>>)
    requires
        distinct(b1),
        distinct(b2),
        forall|k: Seq<u8>| keys_in(b1, k) <==> keys_in(b2, k),
        forall|i: int, j: int|
            occ(b1, i) && occ(b2, j) && ent(b1, i).spec_key() == ent(b2, j).spec_key() ==> ent(
                b1,
                i,
            ).spec_value() == ent(b2, j).spec_value(),
    ensures
        map_of(b1) == map_of(b2),
        count(b1) == count(b2),
{
    lemma_map_of(b1);
    lemma_map_of(b2);
    assert forall|k: Seq<u8>| #[trigger] map_of(b1).contains_key(k) implies map_of(b1)[k] == map_of(
        b2,
    )[k] by {
        let i = choose|i: int| has_key(b1, i, k);
        assert(keys_in(b2, k));
        let j = choose|j: int| has_key(b2, j, k);
        assert(occ(b1, i) && occ(b2, j));
    }
    assert(map_of(b1) =~= map_of(b2));
}

impl<V, S: KeyHasher> View for KeyStore<V, S> {
    type V = Map<Seq<u8>, V>;

    closed spec fn view(&self) -> Map<Seq<u8>, V> {
        map_of(self.buckets@)
    }
}

/// A hash map from byte keys to values that resolves collisions by linear
/// probing with Robin Hood displacement and deletes by backward shifting.
pub struct KeyStore<V, S = DefaultKeyHasher> {
    len: usize,
    buckets: Vec<Option<Entry<V>>>,
    hasher: S,
}

impl<V, S: KeyHasher> KeyStore<V, S> {
    /// The bucket layout, distinct keys and the entry count, whatever the load.
    pub(crate) closed spec fn laid_out(&self) -> bool {
        let b = self.buckets@;
        &&& START_CAPACITY <= b.len() <= max_capacity()
        &&& b.len() % 4 == 0
        &&& layout_ok(b, self.hasher)
        &&& distinct(b)
        &&& self.len == count(b)
    }

    /// The store's invariant: the layout, and a load of at most three quarters.
    pub closed spec fn wf(&self) -> bool {
        &&& self.laid_out()
        &&& self.len * 4 <= self.buckets@.len() * 3
    }

    pub closed spec fn spec_capacity(&self) -> nat {
        self.buckets@.len()
    }

    pub closed spec fn spec_bucket(&self, i: int) -> Option<Entry<V>> {
        self.buckets@[i]
    }

    pub closed spec fn spec_hasher(&self) -> S {
        self.hasher
    }

    /// An empty store with `START_CAPACITY` buckets that hashes keys with `hasher`.
    pub fn with_hasher(hasher: S) -> (r: Self)
        ensures
            r.wf(),
            r@ == Map::<Seq<u8>, V>::empty(),
            r.spec_capacity() == START_CAPACITY,
            r.spec_hasher() == hasher,
    {
        let mut buckets: Vec<Option<Entry<V>>> = Vec::new();
        let mut i: usize = 0;
        while i < START_CAPACITY
            invariant
                i <= START_CAPACITY,
                buckets@.len() == i,
                forall|j: int| 0 <= j < i ==> buckets@[j] is None,
            decreases START_CAPACITY - i,
        {
            buckets.push(None);
            i += 1;
        }
        let r = Self { len: 0, buckets, hasher };
        proof {
            assert forall|j: int| !occ(r.buckets@, j) by {}
            lemma_empty_buckets(r.buckets@);
        }
        r
    }

    /// Number of keys in the store.
    pub fn len(&self) -> (n: usize)
        requires
            self.wf(),
        ensures
            n == self@.len(),
    {
        proof {
            lemma_map_of(self.buckets@);
        }
        self.len
    }

    pub fn is_empty(&self) -> (b: bool)
        requires
            self.wf(),
        ensures
            b == (self@.len() == 0),
    {
        proof {
            lemma_map_of(self.buckets@);
        }
        self.len == 0
    }

    /// Number of buckets.
    pub fn capacity(&self) -> (n: usize)
        ensures
            n == self.spec_capacity(),
    {
        self.buckets.len()
    }

    /// The entry in bucket `index`, if that bucket is occupied.
    pub fn bucket(&self, index: usize) -> (r: Option<&Entry<V>>)
        requires
            index < self.spec_capacity(),
        ensures
            r is Some <==> self.spec_bucket(index as int) is Some,
            r is Some ==> *(r->0) == self.spec_bucket(index as int)->0,
    {
        self.buckets[index].as_ref()
    }

    /// The bucket `psl` steps after the one `hash` points to.
    fn bucket_index(&self, hash: u64, psl: usize) -> (index: usize)
        requires
            0 < self.buckets@.len() <= max_capacity(),
            psl <= self.buckets@.len(),
        ensures
            index == slot(hash, psl as int, self.buckets@.len() as int),
            index < self.buckets@.len(),
    {
        let cap = self.buckets.len();
        proof {
            lemma_slot_range(hash, psl as int, cap as int);
        }
        let home = (hash % (cap as u64)) as usize;
        let x = home + psl;
        if x >= cap {
            x - cap
        } else {
            x
        }
    }

    /// Robin Hood placement of an entry whose key is absent from the store,
    /// starting `entry.psl` steps along its probe path: the entry takes the
    /// first empty bucket, or the bucket of the first entry closer to its own
    /// home, and that entry is carried on in the same way.
    fn place_from(&mut self, entry: Entry<V>)
        requires
            layout_ok(old(self).buckets@, old(self).hasher),
            distinct(old(self).buckets@),
            old(self).buckets@.len() <= max_capacity(),
            count(old(self).buckets@) < old(self).buckets@.len(),
            entry.hash == old(self).hasher.spec_hash(entry.key@),
            !keys_in(old(self).buckets@, entry.key@),
            entry.psl < old(self).buckets@.len(),
            path_ok(old(self).buckets@, entry.hash, entry.psl as int),
        ensures
            final(self).buckets@.len() == old(self).buckets@.len(),
            final(self).hasher == old(self).hasher,
            final(self).len == old(self).len,
            layout_ok(final(self).buckets@, final(self).hasher),
            distinct(final(self).buckets@),
            count(final(self).buckets@) == count(old(self).buckets@) + 1,
            map_of(final(self).buckets@) == map_of(old(self).buckets@).insert(
                entry.key@,
                entry.value,
            ),
    {
        let ghost b0 = self.buckets@;
        let ghost ek = entry.key@;
        let ghost ev = entry.value;
        let ghost target = map_of(b0).insert(ek, ev);
        let cap = self.buckets.len();
        proof {
            lemma_has_empty(b0);
        }
        let ghost e_slot = choose|x: int| 0 <= x < b0.len() && !occ(b0, x);
        let mut carried = entry;
        loop
            invariant
                cap == self.buckets@.len(),
                cap == old(self).buckets@.len(),
                b0 == old(self).buckets@,
                target == map_of(b0).insert(ek, ev),
                ek == entry.key@,
                ev == entry.value,
                cap <= max_capacity(),
                self.hasher == old(self).hasher,
                self.len == old(self).len,
                layout_ok(self.buckets@, self.hasher),
                distinct(self.buckets@),
                count(self.buckets@) == count(b0),
                carried.hash == self.hasher.spec_hash(carried.key@),
                !keys_in(self.buckets@, carried.key@),
                carried.psl < cap,
                path_ok(self.buckets@, carried.hash, carried.psl as int),
                map_of(self.buckets@).insert(carried.key@, carried.value) == target,
                0 <= e_slot < cap,
                !occ(self.buckets@, e_slot),
            decreases dist(e_slot, slot(carried.hash, carried.psl as int, cap as int), cap as int),
        {
            let index = self.bucket_index(carried.hash, carried.psl);
            let ghost b = self.buckets@;
            if self.buckets[index].is_none() {
                proof {
                    lemma_layout_put(b, self.hasher, index as int, carried);
                    lemma_fill_empty(b, index as int, carried);
                }
                self.buckets.set(index, Some(carried));
                return;
            }
            let occupant_psl = match &self.buckets[index] {
                Some(e) => e.psl,
                None => 0,
            };
            proof {
                assert(occ(b, index as int));
                assert(placed(b, self.hasher, index as int));
            }
            if occupant_psl < carried.psl {
                proof {
                    lemma_layout_put(b, self.hasher, index as int, carried);
                    lemma_replace_entry(b, index as int, carried);
                }
                let ghost pc = carried.psl;
                let mut tmp = Some(carried);
                self.buckets.set_and_swap(index, &mut tmp);
                let mut evicted = tmp.unwrap();
                proof {
                    let b1 = self.buckets@;
                    let q = evicted.psl as int;
                    let h = evicted.hash;
                    assert(b1 == b.update(index as int, Some(b1[index as int]->0)));
                    assert forall|d: int| 0 <= d < q + 1 implies #[trigger] occ(
                        b1,
                        slot(h, d, cap as int),
                    ) && ent(b1, slot(h, d, cap as int)).spec_psl() >= d by {
                        if d < q {
                            lemma_chain(b, self.hasher, index as int, d);
                            lemma_slot_injective(h, d, q, cap as int);
                        }
                    }
                    lemma_slot_step(h, q, cap as int);
                    if q + 1 == cap {
                        lemma_slot_cover(h, e_slot, cap as int);
                        let dd = dist(e_slot, home(h, cap as int), cap as int);
                        assert(occ(b1, slot(h, dd, cap as int)));
                    }
                }
                evicted.psl = evicted.psl + 1;
                carried = evicted;
            } else {
                proof {
                    let h = carried.hash;
                    let p = carried.psl as int;
                    assert forall|d: int| 0 <= d < p + 1 implies #[trigger] occ(
                        b,
                        slot(h, d, cap as int),
                    ) && ent(b, slot(h, d, cap as int)).spec_psl() >= d by {}
                    lemma_slot_step(h, p, cap as int);
                    if p + 1 == cap {
                        lemma_slot_cover(h, e_slot, cap as int);
                        let dd = dist(e_slot, home(h, cap as int), cap as int);
                        assert(occ(b, slot(h, dd, cap as int)));
                    }
                }
                carried.psl = carried.psl + 1;
            }
        }
    }

    /// Doubles the number of buckets and places every entry anew, in bucket order.
    fn resize(&mut self)
        requires
            layout_ok(old(self).buckets@, old(self).hasher),
            distinct(old(self).buckets@),
            old(self).len == count(old(self).buckets@),
            0 < old(self).buckets@.len(),
            old(self).buckets@.len() * 2 <= max_capacity(),
        ensures
            final(self).buckets@.len() == old(self).buckets@.len() * 2,
            final(self).hasher == old(self).hasher,
            final(self).len == old(self).len,
            layout_ok(final(self).buckets@, final(self).hasher),
            distinct(final(self).buckets@),
            count(final(self).buckets@) == count(old(self).buckets@),
            map_of(final(self).buckets@) == map_of(old(self).buckets@),
    {
        let new_capacity = self.buckets.len() * 2;
        let mut fresh: Vec<Option<Entry<V>>> = Vec::new();
        let mut i: usize = 0;
        while i < new_capacity
            invariant
                i <= new_capacity,
                fresh@.len() == i,
                forall|j: int| 0 <= j < i ==> fresh@[j] is None,
            decreases new_capacity - i,
        {
            fresh.push(None);
            i += 1;
        }
        proof {
            assert forall|j: int| !occ(fresh@, j) by {}
            lemma_empty_buckets(fresh@);
            assert forall|j: int| #[trigger] occ(fresh@, j) implies placed(fresh@, self.hasher, j)
                && rh_ok(fresh@, j) by {}
        }
        std::mem::swap(&mut self.buckets, &mut fresh);
        let mut old_buckets = fresh;
        let ghost orig = old_buckets@;
        let mut j: usize = 0;
        while j < old_buckets.len()
            invariant
                self.buckets@.len() == new_capacity,
                new_capacity == orig.len() * 2,
                new_capacity <= max_capacity(),
                self.hasher == old(self).hasher,
                self.len == old(self).len,
                orig == old(self).buckets@,
                layout_ok(orig, self.hasher),
                distinct(orig),
                layout_ok(self.buckets@, self.hasher),
                distinct(self.buckets@),
                map_of(self.buckets@) == map_of(orig.take(j as int)),
                count(self.buckets@) == count(orig.take(j as int)),
                old_buckets@.len() == orig.len(),
                j <= orig.len(),
                forall|t: int| j <= t < orig.len() ==> old_buckets@[t] == orig[t],
            decreases orig.len() - j,
        {
            let ghost before = orig.take(j as int);
            let ghost after = orig.take(j + 1);
            proof {
                assert(after.drop_last() =~= before);
                assert(after.last() == orig[j as int]);
                lemma_count_bound(before);
                lemma_map_of(self.buckets@);
                lemma_distinct_take(orig, j as int);
                lemma_map_of(before);
            }
            let mut tmp: Option<Entry<V>> = None;
            old_buckets.set_and_swap(j, &mut tmp);
            match tmp {
                Some(entry) => {
                    let mut entry = entry;
                    proof {
                        assert(occ(orig, j as int));
                        assert(placed(orig, self.hasher, j as int));
                        if keys_in(self.buckets@, entry.key@) {
                            assert(map_of(before).contains_key(entry.key@));
                            let x = choose|x: int| has_key(before, x, entry.key@);
                            assert(occ(orig, x));
                        }
                    }
                    entry.psl = 0;
                    self.place_from(entry);
                },
                None => {},
            }
            j += 1;
        }
        proof {
            assert(orig.take(orig.len() as int) =~= orig);
        }
    }

    /// The load after which the store grows: three quarters of the buckets in use.
    fn should_resize(&self) -> (r: bool)
        requires
            self.len <= self.buckets@.len(),
            self.buckets@.len() <= max_capacity(),
        ensures
            r == (self.len * 4 >= self.buckets@.len() * 3),
    {
        self.len * 4 >= self.buckets.len() * 3
    }

    /// Stores `value` under `key` without growing, handing back the value it
    /// replaces; the store needs a free bucket.
    pub(crate) fn put_entry(&mut self, key: Bytes, value: V) -> (r: Option<V>)
        requires
            old(self).laid_out(),
            old(self)@.len() < old(self).spec_capacity(),
            old(self)@.len() < usize::MAX / 16,
        ensures
            final(self).laid_out(),
            final(self)@ == old(self)@.insert(key@, value),
            r == (if old(self)@.contains_key(key@) {
                Some(old(self)@[key@])
            } else {
                None::<V>
            }),
            final(self).spec_hasher() == old(self).spec_hasher(),
            final(self).spec_capacity() == old(self).spec_capacity(),
            old(self)@.len() * 4 < old(self).spec_capacity() * 3 ==> final(self).wf(),
            old(self).wf() && r is Some ==> final(self).wf(),
    {
        proof {
            lemma_map_of(self.buckets@);
        }
        let hash = self.hasher.hash_key(key.as_slice());
        let cap = self.buckets.len();
        let mut psl: usize = 0;
        loop
            invariant
                self.laid_out(),
                old(self).laid_out(),
                old(self)@.len() < old(self).spec_capacity(),
                old(self)@ == map_of(old(self).buckets@),
                self.buckets@ == old(self).buckets@,
                self.len == old(self).len,
                self.hasher == old(self).hasher,
                old(self)@.len() < usize::MAX / 16,
                hash == self.hasher.spec_hash(key@),
                cap == self.buckets@.len(),
                psl <= cap,
                forall|d: int| 0 <= d < psl ==> #[trigger] probe_ok(self.buckets@, hash, key@, d),
            decreases cap - psl,
        {
            let index = self.bucket_index(hash, psl);
            let ghost b = self.buckets@;
            let (absent, found) = match &self.buckets[index] {
                None => (true, false),
                Some(e) => {
                    if e.psl < psl {
                        (true, false)
                    } else if e.hash == hash && bytes_equal(e.key.as_slice(), key.as_slice()) {
                        (false, true)
                    } else {
                        (false, false)
                    }
                },
            };
            if absent {
                proof {
                    lemma_absent(b, self.hasher, key@, hash, psl as int);
                    lemma_map_of(b);
                    if psl == cap {
                        lemma_has_empty(b);
                        let x = choose|x: int| 0 <= x < b.len() && !occ(b, x);
                        lemma_slot_cover(hash, x, cap as int);
                        assert(probe_ok(b, hash, key@, dist(x, home(hash, cap as int), cap as int)));
                    }
                    assert forall|d: int| 0 <= d < psl implies #[trigger] occ(
                        b,
                        slot(hash, d, cap as int),
                    ) && ent(b, slot(hash, d, cap as int)).spec_psl() >= d by {
                        assert(probe_ok(b, hash, key@, d));
                    }
                }
                let mut entry = Entry::new(key, value, hash);
                entry.psl = psl;
                self.place_from(entry);
                self.len = self.len + 1;
                proof {
                    lemma_map_of(self.buckets@);
                    lemma_count_bound(self.buckets@);
                }
                return None;
            }
            if found {
                proof {
                    assert(occ(b, index as int));
                    assert(has_key(b, index as int, key@));
                    lemma_map_of(b);
                }
                let mut tmp: Option<Entry<V>> = None;
                self.buckets.set_and_swap(index, &mut tmp);
                let old_entry = tmp.unwrap();
                let Entry { key: k, value: old_value, psl: p, hash: h } = old_entry;
                let updated = Entry { key: k, value, psl: p, hash: h };
                proof {
                    lemma_set_value(b, index as int, updated);
                    assert(self.buckets@.update(index as int, Some(updated)) =~= b.update(
                        index as int,
                        Some(updated),
                    ));
                    assert forall|i: int| #[trigger] occ(
                        b.update(index as int, Some(updated)),
                        i,
                    ) implies placed(b.update(index as int, Some(updated)), self.hasher, i) && rh_ok(
                        b.update(index as int, Some(updated)),
                        i,
                    ) by {
                        assert(occ(b, i));
                        assert(placed(b, self.hasher, i) && rh_ok(b, i));
                    }
                }
                self.buckets.set(index, Some(updated));
                proof {
                    lemma_map_of(self.buckets@);
                }
                return Some(old_value);
            }
            proof {
                assert(occ(b, index as int));
                assert(placed(b, self.hasher, index as int));
                assert(probe_ok(b, hash, key@, psl as int));
            }
            psl += 1;
        }
    }

    /// Stores `value` under `key`, handing back the value it replaces. A new
    /// key that brings the load to three quarters doubles the buckets.
    pub fn insert(&mut self, key: Bytes, value: V) -> (r: Option<V>)
        requires
            old(self).wf(),
            old(self)@.len() < usize::MAX / 16,
        ensures
            final(self).wf(),
            final(self)@ == old(self)@.insert(key@, value),
            r == (if old(self)@.contains_key(key@) {
                Some(old(self)@[key@])
            } else {
                None::<V>
            }),
            final(self).spec_hasher() == old(self).spec_hasher(),
            final(self).spec_capacity() == if r is None && final(self)@.len() * 4
                >= old(self).spec_capacity() * 3 {
                old(self).spec_capacity() * 2
            } else {
                old(self).spec_capacity()
            },
    {
        proof {
            lemma_map_of(self.buckets@);
        }
        let r = self.put_entry(key, value);
        proof {
            lemma_map_of(self.buckets@);
        }
        if r.is_none() && self.should_resize() {
            self.resize();
            proof {
                lemma_count_bound(self.buckets@);
                lemma_map_of(self.buckets@);
            }
        }
        r
    }

    /// Doubles the buckets when the load has reached three quarters, so that a
    /// new key can come in without passing that load.
    pub(crate) fn grow_if_loaded(&mut self)
        requires
            old(self).wf(),
            old(self)@.len() < usize::MAX / 16,
        ensures
            final(self).wf(),
            final(self).laid_out(),
            final(self)@ == old(self)@,
            final(self)@.len() * 4 < final(self).spec_capacity() * 3,
            final(self).spec_hasher() == old(self).spec_hasher(),
            final(self).spec_capacity() == if old(self)@.len() * 4 >= old(self).spec_capacity()
                * 3 {
                old(self).spec_capacity() * 2
            } else {
                old(self).spec_capacity()
            },
    {
        proof {
            lemma_map_of(self.buckets@);
        }
        if self.should_resize() {
            self.resize();
            proof {
                lemma_map_of(self.buckets@);
            }
        }
    }

    /// Removes `key`, handing back its value. The entries that follow it in its
    /// cluster each move one bucket back, up to the first empty bucket or the
    /// first entry that sits in its home bucket.
    #[verifier::spinoff_prover]
    pub fn del(&mut self, key: &Bytes) -> (r: Option<V>)
        requires
            old(self).wf(),
        ensures
            final(self).wf(),
            final(self)@ == old(self)@.remove(key@),
            r == (if old(self)@.contains_key(key@) {
                Some(old(self)@[key@])
            } else {
                None::<V>
            }),
            final(self).spec_hasher() == old(self).spec_hasher(),
            final(self).spec_capacity() == old(self).spec_capacity(),
    {
        proof {
            lemma_map_of(self.buckets@);
        }
        let hash = self.hasher.hash_key(key.as_slice());
        let cap = self.buckets.len();
        let mut psl: usize = 0;
        loop
            invariant
                self.wf(),
                self.buckets@ == old(self).buckets@,
                self.len == old(self).len,
                self.hasher == old(self).hasher,
                hash == self.hasher.spec_hash(key@),
                cap == self.buckets@.len(),
                psl <= cap,
                forall|d: int| 0 <= d < psl ==> #[trigger] probe_ok(self.buckets@, hash, key@, d),
            decreases cap - psl,
        {
            let index = self.bucket_index(hash, psl);
            let ghost b = self.buckets@;
            let (absent, found) = match &self.buckets[index] {
                None => (true, false),
                Some(e) => {
                    if e.psl < psl {
                        (true, false)
                    } else if e.hash == hash && bytes_equal(e.key.as_slice(), key.as_slice()) {
                        (false, true)
                    } else {
                        (false, false)
                    }
                },
            };
            if absent {
                proof {
                    lemma_absent(b, self.hasher, key@, hash, psl as int);
                    lemma_map_of(b);
                    assert(map_of(b).remove(key@) =~= map_of(b));
                }
                return None;
            }
            if found {
                proof {
                    assert(occ(b, index as int));
                    assert(has_key(b, index as int, key@));
                    assert(placed(b, self.hasher, index as int) && rh_ok(b, index as int));
                    lemma_map_of(b);
                    lemma_remove_entry(b, index as int);
                    lemma_count_bound(b);
                }
                let mut tmp: Option<Entry<V>> = None;
                self.buckets.set_and_swap(index, &mut tmp);
                let removed = tmp.unwrap();
                self.len = self.len - 1;
                let ghost target = map_of(b).remove(key@);
                proof {
                    assert(removed.value == map_of(b)[key@]);
                }
                let ghost removed_count = count(self.buckets@);
                let ghost mut hole_psl: int = removed.psl as int;
                proof {
                    lemma_has_other_empty(self.buckets@, index as int);
                    let b1 = self.buckets@;
                    lemma_slot_range(hash, 0, cap as int);
                    assert forall|i: int| #[trigger] occ(b1, i) implies placed(b1, self.hasher, i)
                        && (i != next(index as int, cap as int) ==> rh_ok(b1, i)) by {
                        assert(occ(b, i));
                        assert(placed(b, self.hasher, i) && rh_ok(b, i));
                    }
                    let n = next(index as int, cap as int);
                    if occ(b1, n) {
                        assert(occ(b, n));
                        assert(rh_ok(b, n));
                    }
                }
                let ghost e_slot = choose|x: int|
                    0 <= x < self.buckets@.len() && x != index && !occ(self.buckets@, x);
                let mut idx = index;
                loop
                    invariant
                        cap == self.buckets@.len(),
                        START_CAPACITY <= cap <= max_capacity(),
                        self.hasher == old(self).hasher,
                        self.len == count(self.buckets@),
                        self.len * 4 < cap * 3,
                        cap % 4 == 0,
                        count(self.buckets@) == removed_count,
                        cap == old(self).buckets@.len(),
                        target == map_of(old(self).buckets@).remove(key@),
                        map_of(old(self).buckets@).contains_key(key@),
                        removed.value == map_of(old(self).buckets@)[key@],
                        distinct(self.buckets@),
                        map_of(self.buckets@) == target,
                        0 <= idx < cap,
                        !occ(self.buckets@, idx as int),
                        forall|i: int| #[trigger]
                            occ(self.buckets@, i) ==> placed(self.buckets@, self.hasher, i) && (i
                                != next(idx as int, cap as int) ==> rh_ok(self.buckets@, i)),
                        occ(self.buckets@, next(idx as int, cap as int)) && ent(
                            self.buckets@,
                            next(idx as int, cap as int),
                        ).spec_psl() > 0 ==> ent(
                            self.buckets@,
                            next(idx as int, cap as int),
                        ).spec_psl() <= hole_psl + 1,
                        hole_psl > 0 ==> occ(self.buckets@, prev(idx as int, cap as int)) && ent(
                            self.buckets@,
                            prev(idx as int, cap as int),
                        ).spec_psl() + 1 >= hole_psl,
                        0 <= e_slot < cap,
                        e_slot != idx,
                        !occ(self.buckets@, e_slot),
                    decreases dist(e_slot, idx as int, cap as int),
                {
                    let nxt = if idx + 1 == cap {
                        0
                    } else {
                        idx + 1
                    };
                    let shift = match &self.buckets[nxt] {
                        Some(e) => e.psl > 0,
                        None => false,
                    };
                    if !shift {
                        proof {
                            let bb = self.buckets@;
                            assert forall|i: int| #[trigger] occ(bb, i) implies placed(
                                bb,
                                self.hasher,
                                i,
                            ) && rh_ok(bb, i) by {}
                            assert(layout_ok(bb, self.hasher));
                            assert(self.laid_out());
                        }
                        return Some(removed.value);
                    }
                    let ghost bb = self.buckets@;
                    let mut out: Option<Entry<V>> = None;
                    self.buckets.set_and_swap(nxt, &mut out);
                    let mut moved = out.unwrap();
                    let ghost q = moved.psl as int;
                    proof {
                        assert(occ(bb, nxt as int));
                        assert(placed(bb, self.hasher, nxt as int));
                        lemma_slot_step(moved.hash, q - 1, cap as int);
                    }
                    moved.psl = moved.psl - 1;
                    proof {
                        lemma_move_entry(bb, nxt as int, idx as int, moved);
                    }
                    self.buckets.set(idx, Some(moved));
                    proof {
                        let b2 = self.buckets@;
                        assert(b2 == bb.update(nxt as int, None).update(idx as int, Some(moved)));
                        let nn = next(nxt as int, cap as int);
                        assert forall|i: int| #[trigger] occ(b2, i) implies placed(
                            b2,
                            self.hasher,
                            i,
                        ) && (i != nn ==> rh_ok(b2, i)) by {
                            if i != idx {
                                assert(occ(bb, i));
                                assert(placed(bb, self.hasher, i));
                                if i != nn {
                                    assert(rh_ok(bb, i));
                                }
                            }
                        }
                        if occ(b2, nn) {
                            assert(occ(bb, nn));
                            assert(rh_ok(bb, nn));
                        }
                        hole_psl = q;
                    }
                    idx = nxt;
                }
            }
            proof {
                assert(occ(b, index as int));
                assert(placed(b, self.hasher, index as int));
                assert(probe_ok(b, hash, key@, psl as int));
            }
            psl += 1;
        }
    }

    /// The value stored under `key`, if any.
    pub fn get(&self, key: &Bytes) -> (r: Option<&V>)
        requires
            self.wf(),
        ensures
            match r {
                Some(v) => self@.contains_key(key@) && *v == self@[key@],
                None => !self@.contains_key(key@),
            },
    {
        proof {
            lemma_map_of(self.buckets@);
        }
        let hash = self.hasher.hash_key(key.as_slice());
        let cap = self.buckets.len();
        let mut psl: usize = 0;
        loop
            invariant
                self.wf(),
                hash == self.hasher.spec_hash(key@),
                cap == self.buckets@.len(),
                psl <= cap,
                forall|d: int| 0 <= d < psl ==> #[trigger] probe_ok(self.buckets@, hash, key@, d),
            decreases cap - psl,
        {
            let index = self.bucket_index(hash, psl);
            match &self.buckets[index] {
                None => {
                    proof {
                        lemma_absent(self.buckets@, self.hasher, key@, hash, psl as int);
                        lemma_map_of(self.buckets@);
                    }
                    return None;
                },
                Some(e) => {
                    assert(occ(self.buckets@, index as int));
                    assert(placed(self.buckets@, self.hasher, index as int));
                    if e.psl < psl {
                        proof {
                            lemma_absent(self.buckets@, self.hasher, key@, hash, psl as int);
                        lemma_map_of(self.buckets@);
                        }
                        return None;
                    }
                    if e.hash == hash && bytes_equal(e.key.as_slice(), key.as_slice()) {
                        proof {
                            lemma_map_of(self.buckets@);
                            assert(has_key(self.buckets@, index as int, key@));
                        }
                        return Some(&e.value);
                    }
                    assert(probe_ok(self.buckets@, hash, key@, psl as int));
                },
            }
            psl += 1;
        }
    }
}


/// Filling an empty bucket with an entry of a new key adds that key to the map.
proof fn lemma_fill_empty<V>(b: Seq<Option<Entry<V>>>, i: int, c: Entry<V>)
    requires
        distinct(b),
        0 <= i < b.len(),
        !occ(b, i),
        !keys_in(b, c.spec_key()),
    ensures
        distinct(b.update(i, Some(c))),
        map_of(b.update(i, Some(c))) == map_of(b).insert(c.spec_key(), c.spec_value()),
        count(b.update(i, Some(c))) == count(b) + 1,
{
    let b1 = b.update(i, Some(c));
    assert forall|x: int, y: int| #[trigger] occ(b1, x) && #[trigger] occ(b1, y) && x != y implies ent(
        b1,
        x,
    ).spec_key() != ent(b1, y).spec_key() by {
        if x != i && y != i {
            assert(occ(b, x) && occ(b, y));
        } else if x == i {
            assert(occ(b, y));
            if ent(b1, y).spec_key() == c.spec_key() {
                assert(has_key(b, y, c.spec_key()));
            }
        } else {
            assert(occ(b, x));
            if ent(b1, x).spec_key() == c.spec_key() {
                assert(has_key(b, x, c.spec_key()));
            }
        }
    }
    lemma_map_of(b);
    lemma_map_of(b1);
    let m = map_of(b).insert(c.spec_key(), c.spec_value());
    assert forall|k: Seq<u8>| #[trigger] map_of(b1).contains_key(k) <==> m.contains_key(k) by {
        if keys_in(b1, k) {
            let x = choose|x: int| has_key(b1, x, k);
            if x != i {
                assert(has_key(b, x, k));
            }
        }
        if keys_in(b, k) {
            let x = choose|x: int| has_key(b, x, k);
            assert(has_key(b1, x, k));
        }
        if k == c.spec_key() {
            assert(has_key(b1, i, k));
        }
    }
    assert forall|k: Seq<u8>| #[trigger] map_of(b1).contains_key(k) implies map_of(b1)[k] == m[k] by {
        let x = choose|x: int| has_key(b1, x, k);
        assert(occ(b1, x));
        if x != i {
            assert(occ(b, x));
            assert(has_key(b, x, k));
        }
    }
    assert(map_of(b1) =~= m);
}

/// Putting a new key's entry where another entry was trades the one key for the other.
proof fn lemma_replace_entry<V>(b: Seq<Option<Entry<V>>>, i: int, c: Entry<V>)
    requires
        distinct(b),
        occ(b, i),
        !keys_in(b, c.spec_key()),
    ensures
        distinct(b.update(i, Some(c))),
        !keys_in(b.update(i, Some(c)), ent(b, i).spec_key()),
        map_of(b.update(i, Some(c))).insert(ent(b, i).spec_key(), ent(b, i).spec_value()) == map_of(
            b,
        ).insert(c.spec_key(), c.spec_value()),
        count(b.update(i, Some(c))) == count(b),
{
    let b1 = b.update(i, Some(c));
    let e = ent(b, i);
    assert forall|x: int, y: int| #[trigger] occ(b1, x) && #[trigger] occ(b1, y) && x != y implies ent(
        b1,
        x,
    ).spec_key() != ent(b1, y).spec_key() by {
        if x != i && y != i {
            assert(occ(b, x) && occ(b, y));
        } else if x == i {
            assert(occ(b, y));
            if ent(b1, y).spec_key() == c.spec_key() {
                assert(has_key(b, y, c.spec_key()));
            }
        } else {
            assert(occ(b, x));
            if ent(b1, x).spec_key() == c.spec_key() {
                assert(has_key(b, x, c.spec_key()));
            }
        }
    }
    assert(!keys_in(b1, e.spec_key())) by {
        if keys_in(b1, e.spec_key()) {
            let x = choose|x: int| has_key(b1, x, e.spec_key());
            if x == i {
                assert(has_key(b, i, c.spec_key()));
            } else {
                assert(occ(b, x) && occ(b, i));
            }
        }
    }
    lemma_map_of(b);
    lemma_map_of(b1);
    assert(e.spec_key() != c.spec_key()) by {
        assert(has_key(b, i, e.spec_key()));
    }
    let m1 = map_of(b1).insert(e.spec_key(), e.spec_value());
    let m2 = map_of(b).insert(c.spec_key(), c.spec_value());
    assert forall|k: Seq<u8>| #[trigger] m1.contains_key(k) <==> m2.contains_key(k) by {
        if keys_in(b1, k) {
            let x = choose|x: int| has_key(b1, x, k);
            if x != i {
                assert(has_key(b, x, k));
            }
        }
        if keys_in(b, k) {
            let x = choose|x: int| has_key(b, x, k);
            if x != i {
                assert(has_key(b1, x, k));
            }
        }
        if k == c.spec_key() {
            assert(has_key(b1, i, k));
        }
        if k == e.spec_key() {
            assert(has_key(b, i, k));
        }
    }
    assert forall|k: Seq<u8>| #[trigger] m1.contains_key(k) implies m1[k] == m2[k] by {
        if k != e.spec_key() && k != c.spec_key() {
            let x = choose|x: int| has_key(b1, x, k);
            assert(occ(b1, x));
            assert(occ(b, x));
        }
        if k == e.spec_key() {
            assert(occ(b, i));
        }
        if k == c.spec_key() {
            assert(occ(b1, i));
        }
    }
    assert(m1 =~= m2);
    assert(map_of(b1).dom().insert(e.spec_key()).len() == map_of(b1).dom().len() + 1);
    assert(map_of(b).dom().insert(c.spec_key()).len() == map_of(b).dom().len() + 1);
    assert(m1.dom() =~= map_of(b1).dom().insert(e.spec_key()));
    assert(m2.dom() =~= map_of(b).dom().insert(c.spec_key()));
}

/// Replacing the value of an entry in place replaces the key's value in the map.
proof fn lemma_set_value<V>(b: Seq<Option<Entry<V>>>, i: int, c: Entry<V>)
    requires
        distinct(b),
        occ(b, i),
        c.spec_key() == ent(b, i).spec_key(),
    ensures
        distinct(b.update(i, Some(c))),
        map_of(b.update(i, Some(c))) == map_of(b).insert(c.spec_key(), c.spec_value()),
        count(b.update(i, Some(c))) == count(b),
{
    let b1 = b.update(i, Some(c));
    assert forall|x: int, y: int| #[trigger] occ(b1, x) && #[trigger] occ(b1, y) && x != y implies ent(
        b1,
        x,
    ).spec_key() != ent(b1, y).spec_key() by {
        assert(occ(b, x) && occ(b, y));
    }
    lemma_map_of(b);
    lemma_map_of(b1);
    let m = map_of(b).insert(c.spec_key(), c.spec_value());
    assert forall|k: Seq<u8>| #[trigger] map_of(b1).contains_key(k) <==> m.contains_key(k) by {
        if keys_in(b1, k) {
            let x = choose|x: int| has_key(b1, x, k);
            assert(has_key(b, x, k));
        }
        if keys_in(b, k) {
            let x = choose|x: int| has_key(b, x, k);
            assert(has_key(b1, x, k));
        }
        if k == c.spec_key() {
            assert(has_key(b1, i, k));
        }
    }
    assert forall|k: Seq<u8>| #[trigger] map_of(b1).contains_key(k) implies map_of(b1)[k] == m[k] by {
        let x = choose|x: int| has_key(b1, x, k);
        assert(occ(b1, x));
        if x != i {
            assert(occ(b, x));
            assert(occ(b, i));
        }
    }
    assert(map_of(b1) =~= m);
    assert(has_key(b, i, c.spec_key()));
    assert(m.dom() =~= map_of(b).dom());
}

/// Putting an entry into bucket `idx` of its probe path keeps the layout when the
/// path before it is full and the bucket was empty or held an entry closer to home.
#[verifier::rlimit(50)]
proof fn lemma_layout_put<V, S: KeyHasher>(b: Seq<Option<Entry<V>>>, s: S, idx: int, c: Entry<V>)
    requires
        layout_ok(b, s),
        0 <= idx < b.len(),
        c.spec_hash() == s.spec_hash(c.spec_key()),
        c.spec_psl() < b.len(),
        slot(c.spec_hash(), c.spec_psl() as int, b.len() as int) == idx,
        path_ok(b, c.spec_hash(), c.spec_psl() as int),
        !occ(b, idx) || ent(b, idx).spec_psl() < c.spec_psl(),
    ensures
        layout_ok(b.update(idx, Some(c)), s),
{
    let b1 = b.update(idx, Some(c));
    let cap = b.len() as int;
    assert forall|i: int| #[trigger] occ(b1, i) implies placed(b1, s, i) && rh_ok(b1, i) by {
        if i == idx {
            if c.spec_psl() > 0 {
                let d = c.spec_psl() - 1;
                lemma_slot_step(c.spec_hash(), d, cap);
                assert(occ(b, slot(c.spec_hash(), d, cap)));
            }
        } else {
            assert(occ(b, i));
            assert(placed(b, s, i) && rh_ok(b, i));
        }
    }
}

proof fn lemma_distinct_take<V>(b: Seq<Option<Entry<V>>>, n: int)
    requires
        distinct(b),
        0 <= n <= b.len(),
    ensures
        distinct(b.take(n)),
        forall|k: Seq<u8>| #[trigger] keys_in(b.take(n), k) ==> exists|i: int| 0 <= i < n && has_key(b, i, k),
{
    let p = b.take(n);
    assert forall|i: int, j: int| #[trigger] occ(p, i) && #[trigger] occ(p, j) && i != j implies ent(
        p,
        i,
    ).spec_key() != ent(p, j).spec_key() by {
        assert(occ(b, i) && occ(b, j));
    }
    assert forall|k: Seq<u8>| #[trigger] keys_in(p, k) implies exists|i: int| 0 <= i < n && has_key(b, i, k) by {
        let i = choose|i: int| has_key(p, i, k);
        assert(has_key(b, i, k));
    }
}

/// Emptying the bucket of an entry removes its key from the map.
proof fn lemma_remove_entry<V>(b: Seq<Option<Entry<V>>>, i: int)
    requires
        distinct(b),
        occ(b, i),
    ensures
        distinct(b.update(i, None)),
        map_of(b.update(i, None)) == map_of(b).remove(ent(b, i).spec_key()),
        count(b.update(i, None)) + 1 == count(b),
{
    let b1 = b.update(i, None);
    let k0 = ent(b, i).spec_key();
    assert forall|x: int, y: int| #[trigger] occ(b1, x) && #[trigger] occ(b1, y) && x != y implies ent(
        b1,
        x,
    ).spec_key() != ent(b1, y).spec_key() by {
        assert(occ(b, x) && occ(b, y));
    }
    lemma_map_of(b);
    lemma_map_of(b1);
    let m = map_of(b).remove(k0);
    assert forall|k: Seq<u8>| #[trigger] map_of(b1).contains_key(k) <==> m.contains_key(k) by {
        if keys_in(b1, k) {
            let x = choose|x: int| has_key(b1, x, k);
            assert(has_key(b, x, k));
            assert(occ(b, x) && occ(b, i));
        }
        if keys_in(b, k) && k != k0 {
            let x = choose|x: int| has_key(b, x, k);
            assert(has_key(b1, x, k));
        }
    }
    assert forall|k: Seq<u8>| #[trigger] map_of(b1).contains_key(k) implies map_of(b1)[k] == m[k] by {
        let x = choose|x: int| has_key(b1, x, k);
        assert(occ(b1, x));
        assert(occ(b, x));
    }
    assert(map_of(b1) =~= m);
    assert(has_key(b, i, k0));
    assert(map_of(b).dom().remove(k0).len() + 1 == map_of(b).dom().len());
    assert(m.dom() =~= map_of(b).dom().remove(k0));
}

/// Moving an entry from one bucket into an empty one leaves the map as it was.
proof fn lemma_move_entry<V>(b: Seq<Option<Entry<V>>>, from: int, to: int, c: Entry<V>)
    requires
        distinct(b),
        occ(b, from),
        0 <= to < b.len(),
        !occ(b, to),
        c.spec_key() == ent(b, from).spec_key(),
        c.spec_value() == ent(b, from).spec_value(),
    ensures
        distinct(b.update(from, None).update(to, Some(c))),
        map_of(b.update(from, None).update(to, Some(c))) == map_of(b),
        count(b.update(from, None).update(to, Some(c))) == count(b),
{
    let b1 = b.update(from, None).update(to, Some(c));
    assert forall|x: int, y: int| #[trigger] occ(b1, x) && #[trigger] occ(b1, y) && x != y implies ent(
        b1,
        x,
    ).spec_key() != ent(b1, y).spec_key() by {
        let xx = if x == to { from } else { x };
        let yy = if y == to { from } else { y };
        assert(occ(b, xx) && occ(b, yy));
    }
    assert forall|k: Seq<u8>| keys_in(b1, k) <==> keys_in(b, k) by {
        if keys_in(b1, k) {
            let x = choose|x: int| has_key(b1, x, k);
            let xx = if x == to { from } else { x };
            assert(has_key(b, xx, k));
        }
        if keys_in(b, k) {
            let x = choose|x: int| has_key(b, x, k);
            let xx = if x == from { to } else { x };
            assert(has_key(b1, xx, k));
        }
    }
    assert forall|x: int, y: int|
        occ(b1, x) && occ(b, y) && ent(b1, x).spec_key() == ent(b, y).spec_key() implies ent(
        b1,
        x,
    ).spec_value() == ent(b, y).spec_value() by {
        let xx = if x == to { from } else { x };
        assert(occ(b, xx));
    }
    lemma_same_map(b1, b);
}

/// With at least two buckets more than entries, there is an empty bucket other than `x`.
proof fn lemma_has_other_empty<V>(b: Seq<Option<Entry<V>>>, x: int)
    requires
        count(b) + 1 < b.len(),
        0 <= x < b.len(),
        !occ(b, x),
    ensures
        exists|e: int| 0 <= e < b.len() && e != x && !occ(b, e),
    decreases b.len(),
{
    let p = b.drop_last();
    let n = b.len() - 1;
    if n == x {
        lemma_has_empty(p);
        let e = choose|e: int| 0 <= e < p.len() && !occ(p, e);
        assert(!occ(b, e));
    } else if b.last() is None {
        assert(!occ(b, n));
    } else {
        assert(!occ(p, x));
        lemma_has_other_empty(p, x);
        let e = choose|e: int| 0 <= e < p.len() && e != x && !occ(p, e);
        assert(!occ(b, e));
    }
}

proof fn lemma_empty_buckets<V>(b: Seq<Option<Entry<V>>>)
    requires
        forall|j: int| !occ(b, j),
    ensures
        distinct(b),
        map_of(b) == Map::<Seq<u8>, V>::empty(),
        count(b) == 0,
    decreases b.len(),
{
    if b.len() > 0 {
        let p = b.drop_last();
        assert forall|j: int| !occ(p, j) by {
            if occ(p, j) {
                assert(occ(b, j));
            }
        }
        lemma_empty_buckets(p);
        assert(!occ(b, b.len() - 1));
    }
}

impl<V, S: KeyHasher> KeyStore<V, S> {
    /// A well-formed store holds finitely many keys.
    pub proof fn lemma_view_finite(&self)
        requires
            self.wf(),
        ensures
            self@.dom().finite(),
    {
        lemma_map_of(self.buckets@);
    }

    /// Copies of the keys in the store, each once, in bucket order.
    pub fn keys(&self) -> (r: Vec<Bytes>)
        requires
            self.wf(),
        ensures
            r@.len() == self@.len(),
            forall|i: int| 0 <= i < r@.len() ==> self@.contains_key(#[trigger] r@[i]@),
            forall|i: int, j: int| 0 <= i < j < r@.len() ==> r@[i]@ != r@[j]@,
            forall|k: Seq<u8>|
                self@.contains_key(k) ==> exists|i: int| 0 <= i < r@.len() && #[trigger] r@[i]@ == k,
    {
        proof {
            lemma_map_of(self.buckets@);
        }
        let ghost b = self.buckets@;
        let mut r: Vec<Bytes> = Vec::new();
        let ghost mut idx: Seq<int> = Seq::empty();
        let mut i: usize = 0;
        while i < self.buckets.len()
            invariant
                b == self.buckets@,
                distinct(b),
                i <= b.len(),
                r@.len() == idx.len(),
                r@.len() == count(b.take(i as int)),
                forall|p: int|
                    0 <= p < idx.len() ==> 0 <= #[trigger] idx[p] < i && occ(b, idx[p]) && r@[p]@
                        == ent(b, idx[p]).spec_key(),
                forall|p: int, q: int| 0 <= p < q < idx.len() ==> idx[p] < idx[q],
                forall|j: int|
                    0 <= j < i && #[trigger] occ(b, j) ==> exists|p: int|
                        0 <= p < idx.len() && idx[p] == j,
            decreases b.len() - i,
        {
            proof {
                assert(b.take(i + 1).drop_last() =~= b.take(i as int));
            }
            let ghost old_idx = idx;
            match &self.buckets[i] {
                Some(e) => {
                    let copy = slice_to_vec(e.key().as_slice());
                    r.push(copy);
                    proof {
                        idx = idx.push(i as int);
                        assert(occ(b, i as int));
                        assert(idx[idx.len() - 1] == i);
                    }
                },
                None => {},
            }
            proof {
                assert forall|j: int| 0 <= j < i + 1 && #[trigger] occ(b, j) implies exists|p: int|
                    0 <= p < idx.len() && idx[p] == j by {
                    if j < i {
                        let p = choose|p: int| 0 <= p < old_idx.len() && old_idx[p] == j;
                        assert(idx[p] == old_idx[p]);
                    } else {
                        assert(idx[idx.len() - 1] == j);
                    }
                }
            }
            i += 1;
        }
        proof {
            assert(b.take(b.len() as int) =~= b);
            assert forall|p: int| 0 <= p < r@.len() implies self@.contains_key(#[trigger] r@[p]@) by {
                assert(has_key(b, idx[p], r@[p]@));
            }
            assert forall|p: int, q: int| 0 <= p < q < r@.len() implies r@[p]@ != r@[q]@ by {
                assert(occ(b, idx[p]) && occ(b, idx[q]));
            }
            assert forall|k: Seq<u8>| self@.contains_key(k) implies exists|p: int|
                0 <= p < r@.len() && #[trigger] r@[p]@ == k by {
                let j = choose|j: int| has_key(b, j, k);
                assert(occ(b, j));
                let p = choose|p: int| 0 <= p < idx.len() && idx[p] == j;
                assert(r@[p]@ == k);
            }
        }
        r
    }
}

impl<V> Default for KeyStore<V> {
    /// An empty store that hashes with `DefaultKeyHasher`.
    fn default() -> (r: Self)
        ensures
            r.wf(),
            r@ == Map::<Seq<u8>, V>::empty(),
            r.spec_capacity() == START_CAPACITY,
    {
        Self::with_hasher(DefaultKeyHasher)
    }
}

/// Whether two byte strings are equal.
pub fn bytes_equal(a: &[u8], b: &[u8]) -> (r: bool)
    ensures
        r == (a@ == b@),
{
    if a.len() != b.len() {
        return false;
    }
    let mut i: usize = 0;
    while i < a.len()
        invariant
            a@.len() == b@.len(),
            i <= a@.len(),
            forall|j: int| 0 <= j < i ==> a@[j] == b@[j],
        decreases a@.len() - i,
    {
        if a[i] != b[i] {
            return false;
        }
        i += 1;
    }
    assert(a@ =~= b@);
    true
}

/// A store answers as a map: after `insert(k, v)`, `get(k)` gives `v` and
/// every other key gives what it gave before.
pub proof fn lemma_get_after_insert<V>(m: Map<Seq<u8>, V>, k: Seq<u8>, v: V, other: Seq<u8>)
    requires
        other != k,
    ensures
        m.insert(k, v).contains_key(k),
        m.insert(k, v)[k] == v,
        m.insert(k, v).contains_key(other) == m.contains_key(other),
        m.contains_key(other) ==> m.insert(k, v)[other] == m[other],
{
}

/// After `del(k)`, `get(k)` gives nothing and every other key gives what it
/// gave before.
pub proof fn lemma_get_after_del<V>(m: Map<Seq<u8>, V>, k: Seq<u8>, other: Seq<u8>)
    requires
        other != k,
    ensures
        !m.remove(k).contains_key(k),
        m.remove(k).contains_key(other) == m.contains_key(other),
        m.contains_key(other) ==> m.remove(k)[other] == m[other],
{
}

/// Inserting a key that is present keeps the number of keys; inserting a new
/// one adds one; deleting a present key removes one.
pub proof fn lemma_len_after_insert_del<V>(m: Map<Seq<u8>, V>, k: Seq<u8>, v: V)
    requires
        m.dom().finite(),
    ensures
        m.insert(k, v).len() == m.len() + if m.contains_key(k) {
            0int
        } else {
            1int
        },
        m.remove(k).len() == m.len() - if m.contains_key(k) {
            1int
        } else {
            0int
        },
{
}

} // verus!
