//! The order of byte strings, and a stable sort by it.

use vstd::prelude::*;
use vstd::relations::{sorted_by, total_ordering};
use vstd::seq_lib::{lemma_multiset_commutative, lemma_sorted_unique};

verus! {

/// Whether `a` comes before `b` or equals it, byte by byte: the first byte
/// in which they differ decides, and a string comes before those that
/// continue it.
pub open spec fn bytes_le(a: Seq<u8>, b: Seq<u8>) -> bool
    decreases a.len(),
{
    if a.len() == 0 {
        true
    } else if b.len() == 0 {
        false
    } else if a[0] != b[0] {
        a[0] < b[0]
    } else {
        bytes_le(a.drop_first(), b.drop_first())
    }
}

/// Every string comes before itself or equals it.
pub proof fn lemma_bytes_le_reflexive(a: Seq<u8>)
    ensures
        bytes_le(a, a),
    decreases a.len(),
{
    if a.len() > 0 {
        lemma_bytes_le_reflexive(a.drop_first());
    }
}

/// Two strings that come before each other are one string.
pub proof fn lemma_bytes_le_antisymmetric(a: Seq<u8>, b: Seq<u8>)
    requires
        bytes_le(a, b),
        bytes_le(b, a),
    ensures
        a == b,
    decreases a.len(),
{
    if a.len() == 0 || b.len() == 0 {
        assert(a =~= b);
    } else {
        lemma_bytes_le_antisymmetric(a.drop_first(), b.drop_first());
        assert(a =~= seq![a[0]] + a.drop_first());
        assert(b =~= seq![b[0]] + b.drop_first());
    }
}

/// What comes before a string comes before what follows it.
pub proof fn lemma_bytes_le_transitive(a: Seq<u8>, b: Seq<u8>, c: Seq<u8>)
    requires
        bytes_le(a, b),
        bytes_le(b, c),
    ensures
        bytes_le(a, c),
    decreases a.len(),
{
    if a.len() > 0 && b.len() > 0 && c.len() > 0 && a[0] == b[0] && b[0] == c[0] {
        lemma_bytes_le_transitive(a.drop_first(), b.drop_first(), c.drop_first());
    }
}

/// Of two strings one comes before the other.
pub proof fn lemma_bytes_le_total(a: Seq<u8>, b: Seq<u8>)
    ensures
        bytes_le(a, b) || bytes_le(b, a),
    decreases a.len(),
{
    if a.len() > 0 && b.len() > 0 && a[0] == b[0] {
        lemma_bytes_le_total(a.drop_first(), b.drop_first());
    }
}

/// The `i`-th of `keys`, and the empty string where there is none.
pub open spec fn key_at(keys: Seq<Seq<u8>>, i: usize) -> Seq<u8> {
    if i < keys.len() {
        keys[i as int]
    } else {
        Seq::empty()
    }
}

/// The order of a stable sort by key: of two positions the one with the
/// lesser key comes first, and of two with one key the earlier position.
pub open spec fn comes_first(keys: Seq<Seq<u8>>) -> spec_fn(usize, usize) -> bool {
    |i: usize, j: usize|
        if key_at(keys, i) == key_at(keys, j) {
            i <= j
        } else {
            bytes_le(key_at(keys, i), key_at(keys, j))
        }
}

/// The positions of `keys`, sorted by `comes_first`.
pub open spec fn sorted_order(keys: Seq<Seq<u8>>) -> Seq<usize> {
    Seq::new(keys.len(), |i: int| i as usize).sort_by(comes_first(keys))
}

/// `comes_first` orders all positions.
pub proof fn lemma_comes_first_is_total(keys: Seq<Seq<u8>>)
    ensures
        total_ordering(comes_first(keys)),
{
    let r = comes_first(keys);
    assert forall|i: usize| #[trigger] r(i, i) by {}
    assert forall|i: usize, j: usize| #[trigger] r(i, j) && #[trigger] r(j, i) implies i == j by {
        if key_at(keys, i) != key_at(keys, j) {
            lemma_bytes_le_antisymmetric(key_at(keys, i), key_at(keys, j));
        }
    }
    assert forall|i: usize, j: usize, k: usize| #[trigger] r(i, j) && #[trigger] r(j, k) implies r(
        i,
        k,
    ) by {
        let a = key_at(keys, i);
        let b = key_at(keys, j);
        let c = key_at(keys, k);
        lemma_bytes_le_reflexive(a);
        lemma_bytes_le_reflexive(b);
        lemma_bytes_le_transitive(a, b, c);
        if a == c && a != b {
            lemma_bytes_le_antisymmetric(a, b);
        }
    }
    assert forall|i: usize, j: usize| #[trigger] r(i, j) || #[trigger] r(j, i) by {
        lemma_bytes_le_total(key_at(keys, i), key_at(keys, j));
    }
    assert(vstd::relations::reflexive(r));
    assert(vstd::relations::antisymmetric(r));
    assert(vstd::relations::transitive(r));
    assert(vstd::relations::strongly_connected(r));
}

/// The sorted order lists every position exactly once, and in the order of
/// `comes_first`.
pub proof fn lemma_sorted_order(keys: Seq<Seq<u8>>)
    requires
        keys.len() <= usize::MAX,
    ensures
        sorted_order(keys).len() == keys.len(),
        sorted_order(keys).no_duplicates(),
        sorted_by(sorted_order(keys), comes_first(keys)),
        forall|k: int| 0 <= k < keys.len() ==> #[trigger] sorted_order(keys)[k] < keys.len(),
        forall|i: usize| i < keys.len() ==> #[trigger] sorted_order(keys).contains(i),
{
    broadcast use vstd::seq_lib::group_to_multiset_ensures;

    let all = Seq::new(keys.len(), |i: int| i as usize);
    let order = sorted_order(keys);
    lemma_comes_first_is_total(keys);
    all.lemma_sort_by_ensures(comes_first(keys));
    assert(all.no_duplicates());
    all.lemma_multiset_has_no_duplicates();
    order.lemma_multiset_has_no_duplicates_conv();
    assert(order.to_multiset().len() == all.to_multiset().len());
    assert forall|k: int| 0 <= k < keys.len() implies #[trigger] order[k] < keys.len() by {
        assert(order.contains(order[k]));
        assert(all.contains(order[k]));
    }
    assert forall|i: usize| i < keys.len() implies #[trigger] order.contains(i) by {
        assert(all[i as int] == i);
        assert(all.contains(i));
        assert(all.to_multiset().count(i) > 0);
        assert(order.to_multiset().count(i) > 0);
    }
}

/// The strings that the slices hold.
pub open spec fn texts(keys: Seq<&[u8]>) -> Seq<Seq<u8>> {
    Seq::new(keys.len(), |i: int| keys[i]@)
}

/// Where two strings agree up to `k`, what stands at `k` decides their
/// order.
proof fn lemma_decided_at(a: Seq<u8>, b: Seq<u8>, k: int)
    requires
        0 <= k <= a.len(),
        k <= b.len(),
        forall|t: int| 0 <= t < k ==> a[t] == b[t],
        k < a.len() && k < b.len() ==> a[k] != b[k],
    ensures
        bytes_le(a, b) == if k < a.len() && k < b.len() {
            a[k] < b[k]
        } else {
            k == a.len()
        },
        (a == b) == (k == a.len() && k == b.len()),
    decreases k,
{
    if k > 0 {
        let x = a.drop_first();
        let y = b.drop_first();
        assert forall|t: int| 0 <= t < k - 1 implies x[t] == y[t] by {
            assert(a[t + 1] == b[t + 1]);
        }
        lemma_decided_at(x, y, k - 1);
        assert(a =~= seq![a[0]] + x);
        assert(b =~= seq![b[0]] + y);
    } else {
        if a.len() == 0 && b.len() == 0 {
            assert(a =~= b);
        }
    }
}

/// Whether position `i` comes before position `j`, or is it.
fn precedes(keys: &Vec<&[u8]>, i: usize, j: usize) -> (r: bool)
    requires
        i < keys@.len(),
        j < keys@.len(),
    ensures
        r == comes_first(texts(keys@))(i, j),
{
    let a = keys[i];
    let b = keys[j];
    let mut k: usize = 0;
    while k < a.len() && k < b.len() && a[k] == b[k]
        invariant
            k <= a@.len(),
            k <= b@.len(),
            forall|t: int| 0 <= t < k ==> a@[t] == b@[t],
        decreases a@.len() - k,
    {
        k += 1;
    }
    proof {
        lemma_decided_at(a@, b@, k as int);
    }
    if k < a.len() && k < b.len() {
        a[k] < b[k]
    } else if k == a.len() && k == b.len() {
        i <= j
    } else {
        k == a.len()
    }
}

/// Merges two sorted runs of positions into one.
fn merge(keys: &Vec<&[u8]>, left: &Vec<usize>, right: &Vec<usize>) -> (out: Vec<usize>)
    requires
        sorted_by(left@, comes_first(texts(keys@))),
        sorted_by(right@, comes_first(texts(keys@))),
        forall|k: int| 0 <= k < left@.len() ==> #[trigger] left@[k] < keys@.len(),
        forall|k: int| 0 <= k < right@.len() ==> #[trigger] right@[k] < keys@.len(),
    ensures
        sorted_by(out@, comes_first(texts(keys@))),
        out@.to_multiset() == left@.to_multiset().add(right@.to_multiset()),
        forall|k: int| 0 <= k < out@.len() ==> #[trigger] out@[k] < keys@.len(),
{
    broadcast use vstd::seq_lib::group_to_multiset_ensures;
    broadcast use vstd::multiset::group_multiset_axioms;

    let ghost lt = comes_first(texts(keys@));
    proof {
        lemma_comes_first_is_total(texts(keys@));
    }
    let mut out: Vec<usize> = Vec::new();
    let mut i: usize = 0;
    let mut j: usize = 0;
    assert(left@.take(0) =~= Seq::<usize>::empty());
    assert(right@.take(0) =~= Seq::<usize>::empty());
    assert(out@.to_multiset() =~= left@.take(0).to_multiset().add(right@.take(0).to_multiset()));
    while i < left.len() || j < right.len()
        invariant
            i <= left@.len(),
            j <= right@.len(),
            lt == comes_first(texts(keys@)),
            total_ordering(lt),
            sorted_by(left@, lt),
            sorted_by(right@, lt),
            forall|k: int| 0 <= k < left@.len() ==> #[trigger] left@[k] < keys@.len(),
            forall|k: int| 0 <= k < right@.len() ==> #[trigger] right@[k] < keys@.len(),
            forall|k: int| 0 <= k < out@.len() ==> #[trigger] out@[k] < keys@.len(),
            sorted_by(out@, lt),
            i < left@.len() ==> forall|k: int| 0 <= k < out@.len() ==> lt(#[trigger] out@[k], left@[i as int]),
            j < right@.len() ==> forall|k: int|
                0 <= k < out@.len() ==> lt(#[trigger] out@[k], right@[j as int]),
            out@.to_multiset() == left@.take(i as int).to_multiset().add(
                right@.take(j as int).to_multiset(),
            ),
        decreases left@.len() - i + right@.len() - j,
    {
        let from_left = if i == left.len() {
            false
        } else if j == right.len() {
            true
        } else {
            precedes(keys, left[i], right[j])
        };
        let ghost before = out@;
        if from_left {
            let x = left[i];
            out.push(x);
            proof {
                assert(left@.take(i + 1) =~= left@.take(i as int).push(x));
                assert(out@ =~= before.push(x));
                vstd::seq_lib::to_multiset_build(before, x);
                vstd::seq_lib::to_multiset_build(left@.take(i as int), x);
                assert(out@.to_multiset() =~= left@.take(i + 1).to_multiset().add(
                    right@.take(j as int).to_multiset(),
                ));
                assert forall|a: int, b: int| 0 <= a < b < out@.len() implies lt(
                    #[trigger] out@[a],
                    #[trigger] out@[b],
                ) by {
                    if b == before.len() {
                        assert(lt(before[a], x));
                    } else {
                        assert(lt(before[a], before[b]));
                    }
                }
                if i + 1 < left@.len() {
                    assert(lt(x, left@[i + 1]));
                    assert forall|k: int| 0 <= k < out@.len() implies lt(
                        #[trigger] out@[k],
                        left@[i + 1],
                    ) by {
                        if k < before.len() {
                            assert(lt(before[k], x));
                        }
                    }
                }
                if j < right@.len() {
                    assert(lt(x, right@[j as int]));
                }
            }
            i += 1;
        } else {
            let x = right[j];
            out.push(x);
            proof {
                assert(right@.take(j + 1) =~= right@.take(j as int).push(x));
                assert(out@ =~= before.push(x));
                vstd::seq_lib::to_multiset_build(before, x);
                vstd::seq_lib::to_multiset_build(right@.take(j as int), x);
                assert(out@.to_multiset() =~= left@.take(i as int).to_multiset().add(
                    right@.take(j + 1).to_multiset(),
                ));
                assert forall|a: int, b: int| 0 <= a < b < out@.len() implies lt(
                    #[trigger] out@[a],
                    #[trigger] out@[b],
                ) by {
                    if b == before.len() {
                        assert(lt(before[a], x));
                    } else {
                        assert(lt(before[a], before[b]));
                    }
                }
                if j + 1 < right@.len() {
                    assert(lt(x, right@[j + 1]));
                    assert forall|k: int| 0 <= k < out@.len() implies lt(
                        #[trigger] out@[k],
                        right@[j + 1],
                    ) by {
                        if k < before.len() {
                            assert(lt(before[k], x));
                        }
                    }
                }
                if i < left@.len() {
                    assert(lt(left@[i as int], x) || lt(x, left@[i as int]));
                    assert(lt(x, left@[i as int]));
                }
            }
            j += 1;
        }
    }
    assert(left@.take(i as int) =~= left@);
    assert(right@.take(j as int) =~= right@);
    out
}

/// The positions from `lo` up to `hi`.
pub open spec fn positions(lo: int, hi: int) -> Seq<usize> {
    Seq::new((hi - lo) as nat, |k: int| (lo + k) as usize)
}

/// Sorts the positions from `lo` up to `hi`.
fn sort_range(keys: &Vec<&[u8]>, lo: usize, hi: usize) -> (out: Vec<usize>)
    requires
        lo <= hi <= keys@.len(),
    ensures
        sorted_by(out@, comes_first(texts(keys@))),
        out@.to_multiset() == positions(lo as int, hi as int).to_multiset(),
        forall|k: int| 0 <= k < out@.len() ==> #[trigger] out@[k] < keys@.len(),
    decreases hi - lo,
{
    broadcast use vstd::seq_lib::group_to_multiset_ensures;

    if hi - lo <= 1 {
        let mut out: Vec<usize> = Vec::new();
        if hi - lo == 1 {
            out.push(lo);
        }
        assert(out@ =~= positions(lo as int, hi as int));
        return out;
    }
    let mid = lo + (hi - lo) / 2;
    let left = sort_range(keys, lo, mid);
    let right = sort_range(keys, mid, hi);
    proof {
        let a = positions(lo as int, mid as int);
        let b = positions(mid as int, hi as int);
        assert(a + b =~= positions(lo as int, hi as int));
        lemma_multiset_commutative(a, b);
    }
    merge(keys, &left, &right)
}

/// Returns the positions of `keys` in the order of a stable sort by key.
pub fn stable_order(keys: &Vec<&[u8]>) -> (order: Vec<usize>)
    ensures
        order@ == sorted_order(texts(keys@)),
{
    let order = sort_range(keys, 0, keys.len());
    proof {
        let all = positions(0, keys@.len() as int);
        assert(all =~= Seq::new(texts(keys@).len(), |i: int| i as usize));
        lemma_comes_first_is_total(texts(keys@));
        Seq::new(texts(keys@).len(), |i: int| i as usize).lemma_sort_by_ensures(
            comes_first(texts(keys@)),
        );
        lemma_sorted_unique(order@, sorted_order(texts(keys@)), comes_first(texts(keys@)));
    }
    order
}

} // verus!
