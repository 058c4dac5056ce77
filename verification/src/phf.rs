//! A minimal perfect hash over byte-string keys, found by hashing every key
//! into a bucket and displacing each bucket until all keys land on slots of
//! their own.

use crate::Error;
use rand::distributions::Standard;
use rand::rngs::SmallRng;
use rand::{Rng, SeedableRng};
use siphasher::sip128::SipHasher13;
use vstd::prelude::*;
use vstd::set_lib::{lemma_int_range, lemma_map_size, lemma_subset_equality, set_int_range};
use vstd::string::StringSliceAdditionalSpecFns;

verus! {

/// The 64-bit key that seeds the hash function of one perfect hash.
pub type HashKey = u64;

/// How many keys an average bucket holds.
pub const DEFAULT_LAMBDA: usize = 5;

/// The seed of the generator that proposes hash keys.
pub const FIXED_SEED: u64 = 1234567890;

/// The three words that the hash function yields for one key: `g` selects
/// the bucket, `f1` and `f2` feed the displacement.
#[derive(Debug, Clone, Copy, PartialEq, Eq, Structural)]
pub struct Hashes {
    pub g: u32,
    pub f1: u32,
    pub f2: u32,
}

/// The displacement pair `(d1, d2)` of one bucket.
#[derive(Debug, Clone, Copy, PartialEq, Eq, Structural)]
pub struct Disp(pub u32, pub u32);

/// A perfect hash: the hash key, one displacement per bucket, and for each
/// slot the index of the key that lands on it.
#[derive(Debug)]
pub struct HashState {
    pub key: HashKey,
    pub disps: Vec<Disp>,
    pub map: Vec<usize>,
}

/// `d2 + f1 * d1 + f2`, reduced modulo 2^32.
pub open spec fn spec_displace(f1: u32, f2: u32, d1: u32, d2: u32) -> u32 {
    ((d2 + f1 * d1 + f2) % 0x1_0000_0000) as u32
}

/// Combines the two displacement words of a key with the displacement of
/// its bucket, in wrapping 32-bit arithmetic.
pub fn displace(f1: u32, f2: u32, d1: u32, d2: u32) -> (r: u32)
    ensures
        r == spec_displace(f1, f2, d1, d2),
{
    let product: u32 = f1.wrapping_mul(d1);
    let partial: u32 = d2.wrapping_add(product);
    let r: u32 = partial.wrapping_add(f2);
    proof {
        let m = 0x1_0000_0000int;
        assert(product == (f1 * d1) % m);
        assert(partial == (d2 + product) % m);
        assert(r == (partial + f2) % m);
        vstd::arithmetic::div_mod::lemma_add_mod_noop_right(d2 as int, f1 * d1, m);
        vstd::arithmetic::div_mod::lemma_add_mod_noop(d2 + f1 * d1, f2 as int, m);
        vstd::arithmetic::div_mod::lemma_add_mod_noop(d2 + product, f2 as int, m);
    }
    r
}

/// The SipHash-1-3 digest of `bytes` under the key pair `(key0, key1)`, as
/// the lower and the upper 64 bits of its 128.
pub uninterp spec fn sip13_128(key0: u64, key1: u64, bytes: Seq<u8>) -> (u64, u64);

/// Calls `siphasher::sip128::SipHasher13::new_with_keys(key0, key1)` and
/// `hash` on it. The digest depends on the two keys and on the bytes alone;
/// the contract gives it its name and claims nothing more.
#[verifier::external_body]
pub(crate) fn sip13(key0: u64, key1: u64, bytes: &[u8]) -> (r: (u64, u64))
    ensures
        r == sip13_128(key0, key1, bytes@),
{
    let digest = SipHasher13::new_with_keys(key0, key1).hash(bytes);
    (digest.h1, digest.h2)
}

/// The words of the key `bytes` under the hash key `key`: `g` is the upper
/// half of the lower 64 bits of the digest, `f1` their lower half, and `f2`
/// the lower half of the upper 64 bits.
pub open spec fn spec_hash(bytes: Seq<u8>, key: HashKey) -> Hashes {
    let (lower, upper) = sip13_128(0, key, bytes);
    Hashes {
        g: (lower / 0x1_0000_0000) as u32,
        f1: (lower % 0x1_0000_0000) as u32,
        f2: (upper % 0x1_0000_0000) as u32,
    }
}

/// A value that can serve as the key of a perfect hash. What it feeds to
/// the hash function must not depend on the machine.
pub trait PhfHash {
    /// The bytes that stand for this value.
    spec fn phf_bytes(&self) -> Seq<u8>;

    /// Appends the bytes of this value to `state`.
    fn phf_hash(&self, state: &mut Vec<u8>)
        ensures
            final(state)@ == old(state)@ + self.phf_bytes(),
    ;
}

/// The bytes of the values of `data`, one value after the other.
pub open spec fn slice_bytes<T: PhfHash>(data: Seq<T>) -> Seq<u8>
    decreases data.len(),
{
    if data.len() == 0 {
        Seq::empty()
    } else {
        slice_bytes(data.drop_last()) + data.last().phf_bytes()
    }
}

/// Appends the bytes of every value of `data` to `state`, in order.
pub fn phf_hash_slice<T: PhfHash>(data: &[T], state: &mut Vec<u8>)
    ensures
        final(state)@ == old(state)@ + slice_bytes(data@),
{
    let mut i: usize = 0;
    assert(data@.take(0) =~= Seq::<T>::empty());
    while i < data.len()
        invariant
            i <= data@.len(),
            state@ == old(state)@ + slice_bytes(data@.take(i as int)),
        decreases data@.len() - i,
    {
        assert(data@.take(i + 1).drop_last() =~= data@.take(i as int));
        data[i].phf_hash(state);
        i += 1;
        assert(state@ =~= old(state)@ + slice_bytes(data@.take(i as int)));
    }
    assert(data@.take(i as int) =~= data@);
}

impl PhfHash for [u8] {
    open spec fn phf_bytes(&self) -> Seq<u8> {
        self@
    }

    fn phf_hash(&self, state: &mut Vec<u8>) {
        let mut i: usize = 0;
        while i < self.len()
            invariant
                i <= self@.len(),
                state@ == old(state)@ + self@.take(i as int),
            decreases self@.len() - i,
        {
            state.push(self[i]);
            i += 1;
            assert(state@ =~= old(state)@ + self@.take(i as int));
        }
        assert(self@.take(i as int) =~= self@);
    }
}

impl PhfHash for str {
    open spec fn phf_bytes(&self) -> Seq<u8> {
        self.spec_bytes()
    }

    fn phf_hash(&self, state: &mut Vec<u8>) {
        self.as_bytes().phf_hash(state)
    }
}

impl<'a, T: 'a + PhfHash + ?Sized> PhfHash for &'a T {
    open spec fn phf_bytes(&self) -> Seq<u8> {
        (**self).phf_bytes()
    }

    fn phf_hash(&self, state: &mut Vec<u8>) {
        (**self).phf_hash(state)
    }
}

/// Hashes `x` under `key`.
pub fn hash<T: ?Sized + PhfHash>(x: &T, key: HashKey) -> (h: Hashes)
    ensures
        h == spec_hash(x.phf_bytes(), key),
{
    let mut bytes: Vec<u8> = Vec::new();
    x.phf_hash(&mut bytes);
    assert(bytes@ =~= x.phf_bytes());
    let (lower, upper) = sip13(0, key, bytes.as_slice());
    Hashes {
        g: (lower / 0x1_0000_0000) as u32,
        f1: (lower % 0x1_0000_0000) as u32,
        f2: (upper % 0x1_0000_0000) as u32,
    }
}

/// The slot of a key with words `hashes` among `len` slots, given the
/// displacements of all buckets.
pub open spec fn spec_get_index(hashes: Hashes, disps: Seq<Disp>, len: nat) -> u32 {
    let d = disps[hashes.g as int % disps.len() as int];
    (spec_displace(hashes.f1, hashes.f2, d.0, d.1) as int % len as int) as u32
}

/// Returns the slot of a key: the displacement of its bucket, combined
/// with its two displacement words, modulo the number of slots.
pub fn get_index(hashes: &Hashes, disps: &[Disp], len: usize) -> (slot: u32)
    requires
        0 < disps@.len() <= u32::MAX,
        0 < len <= u32::MAX,
    ensures
        slot == spec_get_index(*hashes, disps@, len as nat),
        slot < len,
{
    let d = disps[(hashes.g % (disps.len() as u32)) as usize];
    displace(hashes.f1, hashes.f2, d.0, d.1) % (len as u32)
}

/// The words of every entry under `key`, in the order of the entries.
pub open spec fn spec_hashes<H: PhfHash>(entries: Seq<H>, key: HashKey) -> Seq<Hashes> {
    Seq::new(entries.len(), |i: int| spec_hash(entries[i].phf_bytes(), key))
}

/// The number of buckets for `n` keys: `n / DEFAULT_LAMBDA`, rounded up.
pub open spec fn bucket_count(n: nat) -> nat {
    ((n + DEFAULT_LAMBDA - 1) / DEFAULT_LAMBDA as int) as nat
}

/// The bucket of key `i`.
pub open spec fn bucket_of(hashes: Seq<Hashes>, i: int) -> int {
    hashes[i].g as int % bucket_count(hashes.len()) as int
}

/// The keys below `upto` that fall into bucket `b`, in ascending order.
pub open spec fn keys_in_bucket(hashes: Seq<Hashes>, b: int, upto: nat) -> Seq<usize>
    decreases upto,
{
    if upto == 0 {
        Seq::empty()
    } else {
        let rest = keys_in_bucket(hashes, b, (upto - 1) as nat);
        if bucket_of(hashes, upto - 1) == b {
            rest.push((upto - 1) as usize)
        } else {
            rest
        }
    }
}

/// All keys of bucket `b`, in ascending order.
pub open spec fn bucket_keys(hashes: Seq<Hashes>, b: int) -> Seq<usize> {
    keys_in_bucket(hashes, b, hashes.len())
}

/// The size of every bucket.
pub open spec fn bucket_sizes(hashes: Seq<Hashes>) -> Seq<nat> {
    Seq::new(bucket_count(hashes.len()), |b: int| bucket_keys(hashes, b).len())
}

/// The size of bucket `b`, and zero where there is no such bucket.
pub open spec fn size_at(sizes: Seq<nat>, b: usize) -> nat {
    if b < sizes.len() {
        sizes[b as int]
    } else {
        0
    }
}

/// The order in which buckets are placed: a larger bucket comes before a
/// smaller one, and of two buckets of one size the one with the lower
/// index comes first.
pub open spec fn larger_first(sizes: Seq<nat>) -> spec_fn(usize, usize) -> bool {
    |a: usize, b: usize|
        size_at(sizes, a) > size_at(sizes, b) || (size_at(sizes, a) == size_at(sizes, b) && a <= b)
}

/// The indices of all buckets, sorted by `larger_first`.
pub open spec fn bucket_order(sizes: Seq<nat>) -> Seq<usize> {
    Seq::new(sizes.len(), |b: int| b as usize).sort_by(larger_first(sizes))
}

proof fn lemma_larger_first_is_total(sizes: Seq<nat>)
    ensures
        vstd::relations::total_ordering(larger_first(sizes)),
{
    let r = larger_first(sizes);
    assert(vstd::relations::reflexive(r));
    assert(vstd::relations::antisymmetric(r));
    assert(vstd::relations::transitive(r));
    assert(vstd::relations::strongly_connected(r));
}

/// A sequence without duplicates that holds exactly the indices below
/// `sizes.len()`, sorted by `larger_first`, is the bucket order.
proof fn lemma_bucket_order_unique(sizes: Seq<nat>, order: Seq<usize>)
    requires
        sizes.len() <= usize::MAX,
        vstd::relations::sorted_by(order, larger_first(sizes)),
        order.no_duplicates(),
        forall|j: int| 0 <= j < order.len() ==> order[j] < sizes.len(),
        forall|b: usize| b < sizes.len() ==> order.contains(b),
    ensures
        order == bucket_order(sizes),
{
    broadcast use vstd::seq_lib::group_to_multiset_ensures;

    let all = Seq::new(sizes.len(), |b: int| b as usize);
    assert(all.no_duplicates());
    lemma_larger_first_is_total(sizes);
    all.lemma_sort_by_ensures(larger_first(sizes));
    order.lemma_multiset_has_no_duplicates();
    all.lemma_multiset_has_no_duplicates();
    assert forall|x: usize| order.to_multiset().count(x) == all.to_multiset().count(x) by {
        if x < sizes.len() {
            assert(order.contains(x));
            assert(all[x as int] == x);
            assert(all.contains(x));
        } else {
            assert(!order.contains(x));
            assert(!all.contains(x));
        }
    }
    assert(order.to_multiset() =~= all.to_multiset());
    vstd::seq_lib::lemma_sorted_unique(order, bucket_order(sizes), larger_first(sizes));
}

/// Hashes every entry under `key`.
fn hash_all<H: PhfHash>(entries: &[H], key: HashKey) -> (hashes: Vec<Hashes>)
    ensures
        hashes@ == spec_hashes(entries@, key),
{
    let mut hashes: Vec<Hashes> = Vec::new();
    let mut i: usize = 0;
    while i < entries.len()
        invariant
            i <= entries@.len(),
            hashes@ == spec_hashes(entries@.take(i as int), key),
        decreases entries@.len() - i,
    {
        hashes.push(hash(&entries[i], key));
        i += 1;
        assert(hashes@ =~= spec_hashes(entries@.take(i as int), key));
    }
    assert(entries@.take(i as int) =~= entries@);
    hashes
}

/// Sorts the keys into their buckets.
fn fill_buckets(hashes: &[Hashes]) -> (buckets: Vec<Vec<usize>>)
    requires
        hashes@.len() <= u32::MAX,
    ensures
        buckets@.len() == bucket_count(hashes@.len()),
        forall|b: int| 0 <= b < buckets@.len() ==> (#[trigger] buckets@[b])@ == bucket_keys(hashes@, b),
{
    let n = hashes.len();
    let buckets_len: usize = n / DEFAULT_LAMBDA + if n % DEFAULT_LAMBDA == 0 {
        0
    } else {
        1
    };
    let mut buckets: Vec<Vec<usize>> = Vec::new();
    let mut b: usize = 0;
    while b < buckets_len
        invariant
            b <= buckets_len,
            buckets@.len() == b,
            forall|c: int| 0 <= c < b ==> (#[trigger] buckets@[c])@ == keys_in_bucket(hashes@, c, 0),
        decreases buckets_len - b,
    {
        buckets.push(Vec::new());
        b += 1;
    }
    let mut i: usize = 0;
    while i < n
        invariant
            i <= n,
            n == hashes@.len(),
            n <= u32::MAX,
            buckets_len == bucket_count(n as nat),
            buckets@.len() == buckets_len,
            forall|c: int|
                0 <= c < buckets_len ==> (#[trigger] buckets@[c])@ == keys_in_bucket(
                    hashes@,
                    c,
                    i as nat,
                ),
        decreases n - i,
    {
        let b: usize = (hashes[i].g % (buckets_len as u32)) as usize;
        buckets[b].push(i);
        i += 1;
    }
    buckets
}

/// The sizes of the given buckets.
pub open spec fn sizes_of(buckets: Seq<Vec<usize>>) -> Seq<nat> {
    Seq::new(buckets.len(), |b: int| buckets[b]@.len())
}

/// Lists the buckets in the order in which they are placed.
fn order_buckets(buckets: &Vec<Vec<usize>>) -> (order: Vec<usize>)
    ensures
        order@ == bucket_order(sizes_of(buckets@)),
{
    let ghost sizes = sizes_of(buckets@);
    let count = buckets.len();
    let mut largest: usize = 0;
    let mut b: usize = 0;
    while b < count
        invariant
            b <= count,
            count == buckets@.len(),
            forall|c: int| 0 <= c < b ==> (#[trigger] buckets@[c])@.len() <= largest,
        decreases count - b,
    {
        if buckets[b].len() > largest {
            largest = buckets[b].len();
        }
        b += 1;
    }
    let mut order: Vec<usize> = Vec::new();
    let mut size: usize = largest;
    let mut done = false;
    // every bucket of at least `pending` keys is listed
    let ghost mut pending: int = largest + 1;
    while !done
        invariant
            count == buckets@.len(),
            sizes == sizes_of(buckets@),
            forall|c: int| 0 <= c < count ==> (#[trigger] buckets@[c])@.len() <= largest,
            size <= largest,
            done ==> pending == 0,
            !done ==> pending == size + 1,
            vstd::relations::sorted_by(order@, larger_first(sizes)),
            order@.no_duplicates(),
            forall|j: int| 0 <= j < order@.len() ==> #[trigger] order@[j] < count,
            forall|j: int| 0 <= j < order@.len() ==> size_at(sizes, #[trigger] order@[j]) >= pending,
            forall|c: usize| c < count && size_at(sizes, c) >= pending ==> order@.contains(c),
        decreases pending,
    {
        let mut b: usize = 0;
        while b < count
            invariant
                b <= count,
                count == buckets@.len(),
                sizes == sizes_of(buckets@),
                pending == size + 1,
                vstd::relations::sorted_by(order@, larger_first(sizes)),
                order@.no_duplicates(),
                forall|j: int| 0 <= j < order@.len() ==> #[trigger] order@[j] < count,
                forall|j: int|
                    0 <= j < order@.len() ==> {
                        let c = #[trigger] order@[j];
                        size_at(sizes, c) > size || (size_at(sizes, c) == size && c < b)
                    },
                forall|c: usize|
                    c < count && (size_at(sizes, c) > size || (size_at(sizes, c) == size && c < b))
                        ==> order@.contains(c),
            decreases count - b,
        {
            if buckets[b].len() == size {
                let ghost before = order@;
                order.push(b);
                assert forall|c: usize|
                    c < count && (size_at(sizes, c) > size || (size_at(sizes, c) == size && c < b
                        + 1)) implies order@.contains(c) by {
                    if c == b {
                        assert(order@[before.len() as int] == c);
                    } else {
                        assert(before.contains(c));
                        let j = choose|j: int| 0 <= j < before.len() && before[j] == c;
                        assert(order@[j] == c);
                    }
                }
            }
            b += 1;
        }
        if size == 0 {
            done = true;
            proof {
                pending = 0;
            }
        } else {
            size -= 1;
            proof {
                pending = pending - 1;
            }
        }
    }
    proof {
        lemma_bucket_order_unique(sizes, order@);
    }
    order
}

/// The slot of a key with words `h` among `len` slots, if its bucket is
/// displaced by `d`.
pub open spec fn slot_of(h: Hashes, d: Disp, len: nat) -> int {
    spec_displace(h.f1, h.f2, d.0, d.1) as int % len as int
}

/// The slot of the `a`-th key of `keys` under the displacement `d`.
pub open spec fn key_slot(hashes: Seq<Hashes>, keys: Seq<usize>, a: int, d: Disp) -> int {
    slot_of(hashes[keys[a] as int], d, hashes.len())
}

/// Whether the displacement `d` sends every key of `keys` to a slot that is
/// still free, and no two of them to the same slot.
pub open spec fn fits(
    hashes: Seq<Hashes>,
    keys: Seq<usize>,
    d: Disp,
    slots: Seq<Option<usize>>,
) -> bool {
    &&& forall|a: int|
        0 <= a < keys.len() ==> slots[#[trigger] key_slot(hashes, keys, a, d)] is None
    &&& forall|a: int, b: int|
        0 <= a < b < keys.len() ==> #[trigger] key_slot(hashes, keys, a, d) != #[trigger] key_slot(
            hashes,
            keys,
            b,
            d,
        )
}

/// Whether `d` comes before `e` or equals it, where the first component
/// counts first.
pub open spec fn disp_le(d: Disp, e: Disp) -> bool {
    d.0 < e.0 || (d.0 == e.0 && d.1 <= e.1)
}

/// Whether `d` is the first displacement that fits, among those with both
/// components below the number of slots.
pub open spec fn is_first_fit(
    hashes: Seq<Hashes>,
    keys: Seq<usize>,
    slots: Seq<Option<usize>>,
    d: Disp,
) -> bool {
    &&& d.0 < hashes.len()
    &&& d.1 < hashes.len()
    &&& fits(hashes, keys, d, slots)
    &&& forall|e: Disp|
        e.0 < hashes.len() && e.1 < hashes.len() && #[trigger] fits(hashes, keys, e, slots)
            ==> disp_le(d, e)
}

/// The first displacement that fits, if any does.
pub open spec fn first_fit(
    hashes: Seq<Hashes>,
    keys: Seq<usize>,
    slots: Seq<Option<usize>>,
) -> Option<Disp> {
    if exists|d: Disp| is_first_fit(hashes, keys, slots, d) {
        Some(choose|d: Disp| is_first_fit(hashes, keys, slots, d))
    } else {
        None
    }
}

/// The slots after the first `upto` keys of `keys` have each claimed their
/// slot under the displacement `d`.
pub open spec fn claim(
    hashes: Seq<Hashes>,
    keys: Seq<usize>,
    d: Disp,
    slots: Seq<Option<usize>>,
    upto: nat,
) -> Seq<Option<usize>>
    decreases upto,
{
    if upto == 0 {
        slots
    } else {
        claim(hashes, keys, d, slots, (upto - 1) as nat).update(
            key_slot(hashes, keys, upto - 1, d),
            Some(keys[upto - 1]),
        )
    }
}

/// The displacements chosen so far, and the key that holds each slot.
pub struct Placement {
    pub disps: Seq<Disp>,
    pub slots: Seq<Option<usize>>,
}

/// The placement after the first `upto` buckets of `order` have been
/// placed, each with the first displacement that fits the slots left by
/// the buckets before it; `None` if for one of them no displacement fits.
pub open spec fn place(hashes: Seq<Hashes>, order: Seq<usize>, upto: nat) -> Option<Placement>
    decreases upto,
{
    if upto == 0 {
        Some(
            Placement {
                disps: Seq::new(bucket_count(hashes.len()), |b: int| Disp(0, 0)),
                slots: Seq::new(hashes.len(), |s: int| None),
            },
        )
    } else {
        match place(hashes, order, (upto - 1) as nat) {
            None => None,
            Some(before) => {
                let b = order[upto - 1] as int;
                let keys = bucket_keys(hashes, b);
                match first_fit(hashes, keys, before.slots) {
                    None => None,
                    Some(d) => Some(
                        Placement {
                            disps: before.disps.update(b, d),
                            slots: claim(hashes, keys, d, before.slots, keys.len()),
                        },
                    ),
                }
            },
        }
    }
}

/// The placement of all buckets, largest first.
pub open spec fn place_all(hashes: Seq<Hashes>) -> Option<Placement> {
    place(hashes, bucket_order(bucket_sizes(hashes)), bucket_count(hashes.len()))
}

/// The perfect hash for keys with the given words: the displacement of
/// every bucket and the key on every slot. There is none for more keys than
/// a 32-bit slot number can tell apart, nor where some bucket finds no
/// displacement that fits.
pub open spec fn solve(hashes: Seq<Hashes>) -> Option<(Seq<Disp>, Seq<usize>)> {
    if hashes.len() > u32::MAX {
        None
    } else {
        match place_all(hashes) {
            None => None,
            Some(p) => Some((p.disps, Seq::new(p.slots.len(), |s: int| p.slots[s].unwrap()))),
        }
    }
}

/// Tries one displacement for one bucket: whether it fits. Slots that the
/// bucket claims in this trial are stamped with a fresh generation, so a
/// second claim on one of them shows without clearing the stamps of
/// earlier trials.
fn try_displacement(
    hashes: &[Hashes],
    keys: &Vec<usize>,
    d: Disp,
    map: &Vec<Option<usize>>,
    try_map: &mut Vec<u64>,
    generation: &mut u64,
) -> (ok: bool)
    requires
        0 < hashes@.len() <= u32::MAX,
        map@.len() == hashes@.len(),
        old(try_map)@.len() == hashes@.len(),
        forall|a: int| 0 <= a < keys@.len() ==> #[trigger] keys@[a] < hashes@.len(),
        forall|s: int| 0 <= s < old(try_map)@.len() ==> #[trigger] old(try_map)@[s] <= *old(generation),
    ensures
        ok == fits(hashes@, keys@, d, map@),
        final(try_map)@.len() == hashes@.len(),
        forall|s: int| 0 <= s < final(try_map)@.len() ==> #[trigger] final(try_map)@[s] <= *final(generation),
{
    let n = hashes.len();
    if *generation == u64::MAX {
        let mut s: usize = 0;
        while s < n
            invariant
                s <= n,
                n == try_map@.len(),
                forall|t: int| 0 <= t < s ==> #[trigger] try_map@[t] == 0,
            decreases n - s,
        {
            try_map[s] = 0;
            s += 1;
        }
        *generation = 0;
    }
    *generation += 1;
    let stamp: u64 = *generation;
    let mut a: usize = 0;
    while a < keys.len()
        invariant
            a <= keys@.len(),
            n == hashes@.len(),
            0 < n <= u32::MAX,
            map@.len() == n,
            try_map@.len() == n,
            stamp == *generation,
            forall|c: int| 0 <= c < keys@.len() ==> #[trigger] keys@[c] < n,
            forall|s: int| 0 <= s < n ==> #[trigger] try_map@[s] <= stamp,
            forall|s: int|
                0 <= s < n && #[trigger] try_map@[s] == stamp ==> exists|c: int|
                    0 <= c < a && key_slot(hashes@, keys@, c, d) == s,
            forall|c: int|
                0 <= c < a ==> try_map@[#[trigger] key_slot(hashes@, keys@, c, d)] == stamp,
            forall|c: int| 0 <= c < a ==> map@[#[trigger] key_slot(hashes@, keys@, c, d)] is None,
            forall|c: int, e: int|
                0 <= c < e < a ==> #[trigger] key_slot(hashes@, keys@, c, d) != #[trigger] key_slot(
                    hashes@,
                    keys@,
                    e,
                    d,
                ),
        decreases keys@.len() - a,
    {
        let key = keys[a];
        let idx: usize = (displace(hashes[key].f1, hashes[key].f2, d.0, d.1) % (n as u32)) as usize;
        assert(idx == key_slot(hashes@, keys@, a as int, d));
        if map[idx].is_some() {
            return false;
        }
        if try_map[idx] == stamp {
            proof {
                let c = choose|c: int| 0 <= c < a && key_slot(hashes@, keys@, c, d) == idx;
                assert(key_slot(hashes@, keys@, c, d) == key_slot(hashes@, keys@, a as int, d));
            }
            return false;
        }
        try_map[idx] = stamp;
        a += 1;
    }
    true
}

/// Finds the first displacement that fits the bucket `keys`, trying the
/// first component in the outer and the second in the inner loop.
fn find_displacement(
    hashes: &[Hashes],
    keys: &Vec<usize>,
    map: &Vec<Option<usize>>,
    try_map: &mut Vec<u64>,
    generation: &mut u64,
) -> (found: Option<Disp>)
    requires
        0 < hashes@.len() <= u32::MAX,
        map@.len() == hashes@.len(),
        old(try_map)@.len() == hashes@.len(),
        forall|a: int| 0 <= a < keys@.len() ==> #[trigger] keys@[a] < hashes@.len(),
        forall|s: int| 0 <= s < old(try_map)@.len() ==> #[trigger] old(try_map)@[s] <= *old(generation),
    ensures
        found == first_fit(hashes@, keys@, map@),
        final(try_map)@.len() == hashes@.len(),
        forall|s: int| 0 <= s < final(try_map)@.len() ==> #[trigger] final(try_map)@[s] <= *final(generation),
{
    let n: u32 = hashes.len() as u32;
    let mut d1: u32 = 0;
    while d1 < n
        invariant
            d1 <= n,
            n == hashes@.len(),
            0 < n,
            map@.len() == n,
            try_map@.len() == n,
            forall|a: int| 0 <= a < keys@.len() ==> #[trigger] keys@[a] < n,
            forall|s: int| 0 <= s < n ==> #[trigger] try_map@[s] <= *generation,
            forall|e: Disp| e.0 < d1 && e.1 < n ==> !#[trigger] fits(hashes@, keys@, e, map@),
        decreases n - d1,
    {
        let mut d2: u32 = 0;
        while d2 < n
            invariant
                d1 < n,
                d2 <= n,
                n == hashes@.len(),
                0 < n,
                map@.len() == n,
                try_map@.len() == n,
                forall|a: int| 0 <= a < keys@.len() ==> #[trigger] keys@[a] < n,
                forall|s: int| 0 <= s < n ==> #[trigger] try_map@[s] <= *generation,
                forall|e: Disp|
                    (e.0 < d1 && e.1 < n) || (e.0 == d1 && e.1 < d2) ==> !#[trigger] fits(
                        hashes@,
                        keys@,
                        e,
                        map@,
                    ),
            decreases n - d2,
        {
            let d = Disp(d1, d2);
            if try_displacement(hashes, keys, d, map, try_map, generation) {
                proof {
                    assert(is_first_fit(hashes@, keys@, map@, d));
                    let chosen = choose|e: Disp| is_first_fit(hashes@, keys@, map@, e);
                    assert(disp_le(d, chosen) && disp_le(chosen, d));
                }
                return Some(d);
            }
            d2 += 1;
        }
        d1 += 1;
    }
    proof {
        assert forall|e: Disp| !is_first_fit(hashes@, keys@, map@, e) by {
            if e.0 < n && e.1 < n {
                assert(!fits(hashes@, keys@, e, map@));
            }
        }
    }
    None
}

/// Lets every key of the bucket `keys` claim its slot under `d`.
fn commit(hashes: &[Hashes], keys: &Vec<usize>, d: Disp, map: &mut Vec<Option<usize>>)
    requires
        0 < hashes@.len() <= u32::MAX,
        old(map)@.len() == hashes@.len(),
        forall|a: int| 0 <= a < keys@.len() ==> #[trigger] keys@[a] < hashes@.len(),
    ensures
        final(map)@ == claim(hashes@, keys@, d, old(map)@, keys@.len()),
{
    let n = hashes.len();
    let mut a: usize = 0;
    while a < keys.len()
        invariant
            a <= keys@.len(),
            n == hashes@.len(),
            0 < n <= u32::MAX,
            map@.len() == n,
            forall|c: int| 0 <= c < keys@.len() ==> #[trigger] keys@[c] < n,
            map@ == claim(hashes@, keys@, d, old(map)@, a as nat),
        decreases keys@.len() - a,
    {
        let key = keys[a];
        let idx: usize = (displace(hashes[key].f1, hashes[key].f2, d.0, d.1) % (n as u32)) as usize;
        assert(idx == key_slot(hashes@, keys@, a as int, d));
        map[idx] = Some(key);
        a += 1;
    }
}

/// The bucket order lists every bucket exactly once.
pub proof fn lemma_bucket_order_is_permutation(sizes: Seq<nat>)
    requires
        sizes.len() <= usize::MAX,
    ensures
        bucket_order(sizes).len() == sizes.len(),
        bucket_order(sizes).no_duplicates(),
        forall|j: int| 0 <= j < sizes.len() ==> #[trigger] bucket_order(sizes)[j] < sizes.len(),
        forall|b: usize| b < sizes.len() ==> #[trigger] bucket_order(sizes).contains(b),
{
    broadcast use vstd::seq_lib::group_to_multiset_ensures;

    let all = Seq::new(sizes.len(), |b: int| b as usize);
    let order = bucket_order(sizes);
    lemma_larger_first_is_total(sizes);
    all.lemma_sort_by_ensures(larger_first(sizes));
    assert(all.no_duplicates());
    all.lemma_multiset_has_no_duplicates();
    order.lemma_multiset_has_no_duplicates_conv();
    assert(order.to_multiset().len() == all.to_multiset().len());
    assert forall|j: int| 0 <= j < sizes.len() implies #[trigger] order[j] < sizes.len() by {
        assert(order.contains(order[j]));
        assert(all.contains(order[j]));
    }
    assert forall|b: usize| b < sizes.len() implies #[trigger] order.contains(b) by {
        assert(all[b as int] == b);
        assert(all.contains(b));
        assert(all.to_multiset().count(b) > 0);
        assert(order.to_multiset().count(b) > 0);
    }
}

/// Every key of a bucket lies below `upto` and hashes into that bucket,
/// and every such key is among them.
proof fn lemma_keys_in_bucket(hashes: Seq<Hashes>, b: int, upto: nat)
    requires
        upto <= hashes.len() <= usize::MAX,
    ensures
        forall|a: int|
            0 <= a < keys_in_bucket(hashes, b, upto).len() ==> {
                let k = #[trigger] keys_in_bucket(hashes, b, upto)[a];
                k < upto && bucket_of(hashes, k as int) == b
            },
        forall|i: int|
            0 <= i < upto && bucket_of(hashes, i) == b ==> exists|a: int|
                0 <= a < keys_in_bucket(hashes, b, upto).len() && #[trigger] keys_in_bucket(
                    hashes,
                    b,
                    upto,
                )[a] == i,
    decreases upto,
{
    if upto > 0 {
        let rest = keys_in_bucket(hashes, b, (upto - 1) as nat);
        let keys = keys_in_bucket(hashes, b, upto);
        lemma_keys_in_bucket(hashes, b, (upto - 1) as nat);
        assert forall|i: int| 0 <= i < upto && bucket_of(hashes, i) == b implies exists|a: int|
            0 <= a < keys.len() && #[trigger] keys[a] == i by {
            if i == upto - 1 {
                assert(keys[rest.len() as int] == i);
            } else {
                let a = choose|a: int| 0 <= a < rest.len() && #[trigger] rest[a] == i;
                assert(keys[a] == i);
            }
        }
    }
}

/// What claiming does, where the displacement fits: each key of the bucket
/// holds its slot afterwards, and all other slots are as before.
proof fn lemma_claim(
    hashes: Seq<Hashes>,
    keys: Seq<usize>,
    d: Disp,
    slots: Seq<Option<usize>>,
    upto: nat,
)
    requires
        0 < hashes.len() == slots.len(),
        upto <= keys.len(),
        fits(hashes, keys, d, slots),
    ensures
        claim(hashes, keys, d, slots, upto).len() == slots.len(),
        forall|a: int|
            0 <= a < upto ==> claim(hashes, keys, d, slots, upto)[#[trigger] key_slot(
                hashes,
                keys,
                a,
                d,
            )] == Some(keys[a]),
        forall|s: int|
            0 <= s < slots.len() && (forall|a: int|
                0 <= a < upto ==> #[trigger] key_slot(hashes, keys, a, d) != s) ==> claim(
                hashes,
                keys,
                d,
                slots,
                upto,
            )[s] == slots[s],
    decreases upto,
{
    if upto > 0 {
        lemma_claim(hashes, keys, d, slots, (upto - 1) as nat);
        let last = key_slot(hashes, keys, upto - 1, d);
        assert(0 <= last < hashes.len());
        let before = claim(hashes, keys, d, slots, (upto - 1) as nat);
        let after = claim(hashes, keys, d, slots, upto);
        assert forall|a: int| 0 <= a < upto implies after[#[trigger] key_slot(hashes, keys, a, d)]
            == Some(keys[a]) by {
            let s = key_slot(hashes, keys, a, d);
            assert(0 <= s < hashes.len());
            if a < upto - 1 {
                assert(s != last);
            }
        }
    }
}

/// Once a bucket finds no displacement, no later placement exists.
proof fn lemma_place_stays_none(hashes: Seq<Hashes>, order: Seq<usize>, failed: nat, upto: nat)
    requires
        failed <= upto,
        place(hashes, order, failed) is None,
    ensures
        place(hashes, order, upto) is None,
    decreases upto,
{
    if upto > failed {
        lemma_place_stays_none(hashes, order, failed, (upto - 1) as nat);
    }
}

/// Whether the bucket of key `i` is among the first `upto` of `order`.
pub open spec fn is_placed(hashes: Seq<Hashes>, order: Seq<usize>, upto: nat, i: int) -> bool {
    exists|j: int| 0 <= j < upto && #[trigger] order[j] == bucket_of(hashes, i)
}

/// The slot of key `i` under the displacement of its bucket.
pub open spec fn final_slot(hashes: Seq<Hashes>, disps: Seq<Disp>, i: int) -> int {
    slot_of(hashes[i], disps[bucket_of(hashes, i)], hashes.len())
}

/// Whether a placement holds exactly the keys of the first `upto` buckets,
/// each on the slot that the displacement of its bucket gives it.
pub open spec fn placement_holds(
    hashes: Seq<Hashes>,
    order: Seq<usize>,
    upto: nat,
    p: Placement,
) -> bool {
    &&& p.disps.len() == bucket_count(hashes.len())
    &&& p.slots.len() == hashes.len()
    &&& forall|s: int|
        0 <= s < hashes.len() && (#[trigger] p.slots[s]) is Some ==> {
            let i = p.slots[s].unwrap();
            &&& i < hashes.len()
            &&& is_placed(hashes, order, upto, i as int)
            &&& final_slot(hashes, p.disps, i as int) == s
        }
    &&& forall|i: int|
        0 <= i < hashes.len() && is_placed(hashes, order, upto, i) ==> p.slots[#[trigger] final_slot(
            hashes,
            p.disps,
            i,
        )] == Some(i as usize)
}

/// Every placement that `place` reaches holds exactly the keys of the
/// buckets placed so far.
proof fn lemma_place_holds(hashes: Seq<Hashes>, order: Seq<usize>, upto: nat)
    requires
        hashes.len() <= u32::MAX,
        upto <= order.len(),
        order.no_duplicates(),
        forall|j: int| 0 <= j < order.len() ==> #[trigger] order[j] < bucket_count(hashes.len()),
    ensures
        place(hashes, order, upto) matches Some(p) ==> placement_holds(hashes, order, upto, p),
    decreases upto,
{
    if upto == 0 {
    } else if place(hashes, order, upto) is Some {
        let n = hashes.len();
        let before = place(hashes, order, (upto - 1) as nat).unwrap();
        lemma_place_holds(hashes, order, (upto - 1) as nat);
        let b = order[upto - 1] as int;
        let keys = bucket_keys(hashes, b);
        let d = first_fit(hashes, keys, before.slots).unwrap();
        let after = place(hashes, order, upto).unwrap();
        assert(is_first_fit(hashes, keys, before.slots, d));
        assert(n > 0);
        lemma_keys_in_bucket(hashes, b, n);
        lemma_claim(hashes, keys, d, before.slots, keys.len());
        assert(after.slots == claim(hashes, keys, d, before.slots, keys.len()));
        assert(after.disps == before.disps.update(b, d));
        // a key of an earlier bucket keeps its displacement
        assert forall|i: int|
            0 <= i < n && is_placed(hashes, order, (upto - 1) as nat, i) implies bucket_of(hashes, i)
            != b && final_slot(hashes, after.disps, i) == final_slot(hashes, before.disps, i) by {
            let j = choose|j: int| 0 <= j < upto - 1 && #[trigger] order[j] == bucket_of(hashes, i);
            assert(order[j] != order[upto - 1]);
        }
        assert forall|i: int| 0 <= i < n && bucket_of(hashes, i) == b implies final_slot(
            hashes,
            after.disps,
            i,
        ) == slot_of(hashes[i], d, n) by {}
        assert forall|s: int| 0 <= s < n && (#[trigger] after.slots[s]) is Some implies {
            let i = after.slots[s].unwrap();
            &&& i < n
            &&& is_placed(hashes, order, upto, i as int)
            &&& final_slot(hashes, after.disps, i as int) == s
        } by {
            let i = after.slots[s].unwrap();
            if exists|a: int| 0 <= a < keys.len() && key_slot(hashes, keys, a, d) == s {
                let a = choose|a: int| 0 <= a < keys.len() && key_slot(hashes, keys, a, d) == s;
                assert(after.slots[key_slot(hashes, keys, a, d)] == Some(keys[a]));
                assert(i == keys[a]);
                assert(order[upto - 1] == bucket_of(hashes, i as int));
            } else {
                assert(after.slots[s] == before.slots[s]);
                assert(is_placed(hashes, order, (upto - 1) as nat, i as int));
                let j = choose|j: int|
                    0 <= j < upto - 1 && #[trigger] order[j] == bucket_of(hashes, i as int);
                assert(order[j] == bucket_of(hashes, i as int));
            }
        }
        assert forall|i: int| 0 <= i < n && is_placed(hashes, order, upto, i) implies after.slots[#[trigger] final_slot(
            hashes,
            after.disps,
            i,
        )] == Some(i as usize) by {
            let j = choose|j: int| 0 <= j < upto && #[trigger] order[j] == bucket_of(hashes, i);
            if j == upto - 1 {
                let a = choose|a: int| 0 <= a < keys.len() && #[trigger] keys[a] == i;
                assert(key_slot(hashes, keys, a, d) == final_slot(hashes, after.disps, i));
            } else {
                assert(is_placed(hashes, order, (upto - 1) as nat, i));
                let s = final_slot(hashes, before.disps, i);
                assert(before.slots[s] == Some(i as usize));
                assert(0 <= s < n);
                assert forall|a: int| 0 <= a < keys.len() implies #[trigger] key_slot(
                    hashes,
                    keys,
                    a,
                    d,
                ) != s by {}
            }
        }
    }
}

/// When every bucket has been placed, every slot holds a key.
proof fn lemma_all_slots_filled(hashes: Seq<Hashes>)
    requires
        hashes.len() <= u32::MAX,
        place_all(hashes) is Some,
    ensures
        placement_holds(
            hashes,
            bucket_order(bucket_sizes(hashes)),
            bucket_count(hashes.len()),
            place_all(hashes).unwrap(),
        ),
        forall|i: int|
            0 <= i < hashes.len() ==> #[trigger] is_placed(
                hashes,
                bucket_order(bucket_sizes(hashes)),
                bucket_count(hashes.len()),
                i,
            ),
        forall|s: int| 0 <= s < hashes.len() ==> (#[trigger] place_all(hashes).unwrap().slots[s]) is Some,
{
    let n = hashes.len();
    let count = bucket_count(n);
    let order = bucket_order(bucket_sizes(hashes));
    let p = place_all(hashes).unwrap();
    lemma_bucket_order_is_permutation(bucket_sizes(hashes));
    lemma_place_holds(hashes, order, count);
    assert forall|i: int| 0 <= i < n implies #[trigger] is_placed(hashes, order, count, i) by {
        let b = bucket_of(hashes, i);
        assert(0 <= b < count);
        assert(order.contains(b as usize));
        let j = choose|j: int| 0 <= j < order.len() && order[j] == b as usize;
        assert(order[j] == bucket_of(hashes, i));
    }
    let f = |i: int| final_slot(hashes, p.disps, i);
    let keys = set_int_range(0, n as int);
    let image = keys.map(f);
    lemma_int_range(0, n as int);
    assert(vstd::relations::injective_on(f, keys)) by {
        assert forall|i: int, j: int|
            keys.contains(i) && keys.contains(j) && #[trigger] f(i) == #[trigger] f(j) implies i
            == j by {
            assert(p.slots[final_slot(hashes, p.disps, i)] == Some(i as usize));
            assert(p.slots[final_slot(hashes, p.disps, j)] == Some(j as usize));
        }
    }
    lemma_map_size(keys, image, f);
    assert(image.subset_of(keys)) by {
        assert forall|s: int| image.contains(s) implies keys.contains(s) by {
            let i = choose|i: int| keys.contains(i) && f(i) == s;
            assert(p.slots[final_slot(hashes, p.disps, i)] == Some(i as usize));
            if n > 0 {
                assert(0 <= final_slot(hashes, p.disps, i) < n);
            }
        }
    }
    lemma_subset_equality(image, keys);
    assert forall|s: int| 0 <= s < n implies (#[trigger] p.slots[s]) is Some by {
        assert(keys.contains(s));
        assert(image.contains(s));
        let i = choose|i: int| keys.contains(i) && f(i) == s;
        assert(p.slots[final_slot(hashes, p.disps, i)] == Some(i as usize));
    }
}

/// A solution is a perfect hash: it has one displacement per bucket and
/// one slot per key, the slot that `get_index` computes for a key holds
/// that key, and the slots hold every key exactly once.
pub proof fn lemma_solution_is_perfect(hashes: Seq<Hashes>)
    requires
        solve(hashes) is Some,
    ensures
        ({
            let (disps, map) = solve(hashes).unwrap();
            &&& disps.len() == bucket_count(hashes.len())
            &&& map.len() == hashes.len()
            &&& forall|i: int|
                0 <= i < hashes.len() ==> {
                    let slot = #[trigger] spec_get_index(hashes[i], disps, hashes.len());
                    slot < hashes.len() && map[slot as int] == i
                }
            &&& forall|s: int| 0 <= s < map.len() ==> #[trigger] map[s] < hashes.len()
            &&& map.no_duplicates()
        }),
{
    let n = hashes.len();
    let (disps, map) = solve(hashes).unwrap();
    let p = place_all(hashes).unwrap();
    let order = bucket_order(bucket_sizes(hashes));
    lemma_all_slots_filled(hashes);
    assert forall|i: int| 0 <= i < n implies {
        let slot = #[trigger] spec_get_index(hashes[i], disps, n);
        slot < n && map[slot as int] == i
    } by {
        assert(is_placed(hashes, order, bucket_count(n), i));
        let s = final_slot(hashes, p.disps, i);
        assert(p.slots[s] == Some(i as usize));
        assert(0 <= s < n);
        assert(spec_get_index(hashes[i], disps, n) == s);
    }
    assert forall|s: int, t: int| 0 <= s < n && 0 <= t < n && s != t implies map[s] != map[t] by {
        assert(p.slots[s] is Some && p.slots[t] is Some);
    }
    assert forall|s: int| 0 <= s < map.len() implies #[trigger] map[s] < n by {
        assert(p.slots[s] is Some);
    }
}

/// Places all buckets, largest first, each with the first displacement
/// that fits, and returns the displacements and the key on every slot.
pub fn place_buckets(hashes: &[Hashes]) -> (r: Option<(Vec<Disp>, Vec<usize>)>)
    ensures
        match solve(hashes@) {
            Some((disps, map)) => r matches Some(found) && found.0@ == disps && found.1@ == map,
            None => r is None,
        },
{
    let n = hashes.len();
    if n > 0xffff_ffff {
        return None;
    }
    let buckets = fill_buckets(hashes);
    let order = order_buckets(&buckets);
    let count = buckets.len();
    proof {
        assert(sizes_of(buckets@) =~= bucket_sizes(hashes@));
        lemma_bucket_order_is_permutation(bucket_sizes(hashes@));
    }
    let mut disps: Vec<Disp> = Vec::new();
    let mut b: usize = 0;
    while b < count
        invariant
            b <= count,
            disps@ =~= Seq::new(b as nat, |c: int| Disp(0, 0)),
        decreases count - b,
    {
        disps.push(Disp(0, 0));
        b += 1;
    }
    let mut map: Vec<Option<usize>> = Vec::new();
    let mut try_map: Vec<u64> = Vec::new();
    let mut s: usize = 0;
    while s < n
        invariant
            s <= n,
            map@ =~= Seq::new(s as nat, |t: int| None::<usize>),
            try_map@.len() == s,
            forall|t: int| 0 <= t < s ==> #[trigger] try_map@[t] == 0,
        decreases n - s,
    {
        map.push(None);
        try_map.push(0);
        s += 1;
    }
    let mut generation: u64 = 0;
    let mut k: usize = 0;
    while k < count
        invariant
            k <= count,
            n == hashes@.len(),
            n <= u32::MAX,
            count == bucket_count(n as nat),
            buckets@.len() == count,
            forall|c: int| 0 <= c < count ==> (#[trigger] buckets@[c])@ == bucket_keys(hashes@, c),
            order@ == bucket_order(bucket_sizes(hashes@)),
            order@.len() == count,
            forall|j: int| 0 <= j < count ==> #[trigger] order@[j] < count,
            try_map@.len() == n,
            forall|t: int| 0 <= t < n ==> #[trigger] try_map@[t] <= generation,
            map@.len() == n,
            disps@.len() == count,
            place(hashes@, order@, k as nat) == Some(Placement { disps: disps@, slots: map@ }),
        decreases count - k,
    {
        let b = order[k];
        let keys = &buckets[b];
        proof {
            lemma_keys_in_bucket(hashes@, b as int, n as nat);
        }
        match find_displacement(hashes, keys, &map, &mut try_map, &mut generation) {
            None => {
                proof {
                    assert(place(hashes@, order@, (k + 1) as nat) is None);
                    lemma_place_stays_none(hashes@, order@, (k + 1) as nat, count as nat);
                }
                return None;
            },
            Some(d) => {
                proof {
                    assert(is_first_fit(hashes@, keys@, map@, d));
                    lemma_claim(hashes@, keys@, d, map@, keys@.len());
                }
                disps[b] = d;
                commit(hashes, keys, d, &mut map);
            },
        }
        k += 1;
    }
    proof {
        lemma_all_slots_filled(hashes@);
    }
    let mut slots: Vec<usize> = Vec::new();
    let mut s: usize = 0;
    while s < n
        invariant
            s <= n,
            map@.len() == n,
            forall|t: int| 0 <= t < n ==> (#[trigger] map@[t]) is Some,
            slots@ =~= Seq::new(s as nat, |t: int| map@[t].unwrap()),
        decreases n - s,
    {
        match map[s] {
            Some(key) => slots.push(key),
            None => {},
        }
        s += 1;
    }
    Some((disps, slots))
}

/// Tries to build a perfect hash for `entries` with the hash key `key`.
/// Succeeds exactly when every bucket finds a displacement.
pub fn try_generate_hash<H: PhfHash>(entries: &[H], key: HashKey) -> (r: Option<HashState>)
    ensures
        match solve(spec_hashes(entries@, key)) {
            Some((disps, map)) => r matches Some(state) && state.key == key && state.disps@ == disps
                && state.map@ == map,
            None => r is None,
        },
{
    let hashes = hash_all(entries, key);
    match place_buckets(hashes.as_slice()) {
        Some((disps, map)) => Some(HashState { key, disps, map }),
        None => None,
    }
}

/// How many hash keys `generate_hash` tries before it gives up.
pub const MAX_TRIALS: u32 = 0x1_0000;

#[verifier::external_type_specification]
#[verifier::external_body]
pub struct ExSmallRng(SmallRng);

/// Calls `rand::SeedableRng::seed_from_u64` for `rand::rngs::SmallRng`.
/// Which generator this is depends on the machine, so nothing is claimed of
/// it.
#[verifier::external_body]
fn seeded_rng(seed: u64) -> SmallRng {
    SmallRng::seed_from_u64(seed)
}

/// Draws the next 64-bit value from the generator, by `rand::Rng::sample`
/// with the `Standard` distribution. Nothing is claimed of the value.
#[verifier::external_body]
fn next_key(rng: &mut SmallRng) -> HashKey {
    rng.sample(Standard)
}

/// Builds a perfect hash for `entries`. Hash keys are drawn from a
/// generator seeded with `FIXED_SEED` until one of them gives a solution;
/// after `MAX_TRIALS` failures the result is `PhfFailure`.
///
/// Which keys are drawn is not specified. Whatever they are, a state that
/// is returned is the solution for its own key; there is one if every key
/// has a solution, and none if no key has.
pub fn generate_hash<H: PhfHash>(entries: &[H]) -> (r: Result<HashState, Error>)
    ensures
        r matches Ok(state) ==> solve(spec_hashes(entries@, state.key)) == Some(
            (state.disps@, state.map@),
        ),
        r matches Err(e) ==> e == Error::PhfFailure,
        (forall|key: HashKey| (#[trigger] solve(spec_hashes(entries@, key))) is Some) ==> r is Ok,
        (forall|key: HashKey| (#[trigger] solve(spec_hashes(entries@, key))) is None) ==> r is Err,
{
    let mut rng = seeded_rng(FIXED_SEED);
    let mut trial: u32 = 0;
    while trial < MAX_TRIALS
        invariant
            trial <= MAX_TRIALS,
            (forall|key: HashKey| (#[trigger] solve(spec_hashes(entries@, key))) is Some) ==> trial
                == 0,
        decreases MAX_TRIALS - trial,
    {
        let key = next_key(&mut rng);
        match try_generate_hash(entries, key) {
            Some(state) => {
                return Ok(state);
            },
            None => {},
        }
        trial += 1;
    }
    Err(Error::PhfFailure)
}

} // verus!
