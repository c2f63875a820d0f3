//! Packing of pixel coordinates into ordered 64-bit keys, and a merge sort
//! over such keys.  Sorting packed keys orders points lexicographically
//! (first coordinate, then second), which is the order every grouping pass
//! of the recognition code relies on.
use vstd::prelude::*;

verus! {

broadcast use vstd::seq_lib::group_to_multiset_ensures;

/// 2^32, the weight of the first coordinate in a packed key.
pub open spec fn key_base() -> int {
    0x1_0000_0000
}

/// The packed key of a pair: first coordinate in the high half.
pub open spec fn pack_spec(a: u32, b: u32) -> u64 {
    (a as int * key_base() + b as int) as u64
}

/// A sequence is sorted in nondecreasing order.
pub open spec fn sorted(s: Seq<u64>) -> bool {
    forall|i: int, j: int| 0 <= i < j < s.len() ==> s[i] <= s[j]
}

/// A sequence is sorted in strictly increasing order (sorted, no repeats).
pub open spec fn strictly_sorted(s: Seq<u64>) -> bool {
    forall|i: int, j: int| 0 <= i < j < s.len() ==> s[i] < s[j]
}

/// Packs a pair into a key so that key order is lexicographic pair order.
pub fn pack(a: u32, b: u32) -> (k: u64)
    ensures
        k == pack_spec(a, b),
        k as int == a as int * key_base() + b as int,
{
    (a as u64) * 0x1_0000_0000u64 + (b as u64)
}

/// Key order is lexicographic order on pairs.
pub proof fn lemma_pack_order(a1: u32, b1: u32, a2: u32, b2: u32)
    ensures
        pack_spec(a1, b1) < pack_spec(a2, b2) <==> (a1 < a2 || (a1 == a2 && b1 < b2)),
        pack_spec(a1, b1) == pack_spec(a2, b2) <==> (a1 == a2 && b1 == b2),
{
}

/// Recovers the pair from a packed key.
pub fn unpack(k: u64) -> (p: (u32, u32))
    ensures
        pack_spec(p.0, p.1) == k,
{
    let a: u64 = k / 0x1_0000_0000u64;
    let b: u64 = k % 0x1_0000_0000u64;
    (a as u32, b as u32)
}

/// Merges two sorted key vectors into one sorted vector holding the union of
/// their elements (as a multiset).
fn merge(a: &Vec<u64>, b: &Vec<u64>) -> (r: Vec<u64>)
    requires
        sorted(a@),
        sorted(b@),
    ensures
        sorted(r@),
        r@.to_multiset() == a@.to_multiset().add(b@.to_multiset()),
{
    let mut r: Vec<u64> = Vec::new();
    let mut i: usize = 0;
    let mut j: usize = 0;
    while i < a.len() || j < b.len()
        invariant
            sorted(a@),
            sorted(b@),
            i <= a.len(),
            j <= b.len(),
            sorted(r@),
            r@.to_multiset() == a@.take(i as int).to_multiset().add(b@.take(j as int).to_multiset()),
            r.len() > 0 && i < a.len() ==> r@.last() <= a@[i as int],
            r.len() > 0 && j < b.len() ==> r@.last() <= b@[j as int],
        decreases a.len() + b.len() - i - j,
    {
        if j >= b.len() || (i < a.len() && a[i] <= b[j]) {
            let x = a[i];
            proof {
                assert(a@.take(i as int + 1) =~= a@.take(i as int).push(x));
            }
            r.push(x);
            i = i + 1;
        } else {
            let x = b[j];
            proof {
                assert(b@.take(j as int + 1) =~= b@.take(j as int).push(x));
            }
            r.push(x);
            j = j + 1;
        }
        proof {
            broadcast use vstd::multiset::group_multiset_axioms;
            assert(r@.to_multiset() =~= a@.take(i as int).to_multiset().add(
                b@.take(j as int).to_multiset(),
            ));
        }
    }
    proof {
        assert(a@.take(a.len() as int) =~= a@);
        assert(b@.take(b.len() as int) =~= b@);
    }
    r
}

/// Sorts keys in nondecreasing order; the result is a permutation of the input.
pub fn sort_keys(v: &Vec<u64>) -> (r: Vec<u64>)
    ensures
        sorted(r@),
        r@.to_multiset() == v@.to_multiset(),
        r.len() == v.len(),
    decreases v.len(),
{
    let n = v.len();
    if n <= 1 {
        let mut r: Vec<u64> = Vec::new();
        if n == 1 {
            r.push(v[0]);
            proof {
                assert(r@ =~= v@);
            }
        } else {
            proof {
                assert(r@ =~= v@);
            }
        }
        return r;
    }
    let mid = n / 2;
    let mut left: Vec<u64> = Vec::new();
    let mut right: Vec<u64> = Vec::new();
    let mut k: usize = 0;
    while k < n
        invariant
            n == v.len(),
            mid == n / 2,
            k <= n,
            k <= mid ==> left@ =~= v@.take(k as int) && right@.len() == 0,
            k > mid ==> left@ =~= v@.take(mid as int) && right@ =~= v@.subrange(mid as int, k as int),
        decreases n - k,
    {
        if k < mid {
            left.push(v[k]);
        } else {
            right.push(v[k]);
        }
        k = k + 1;
    }
    proof {
        assert(left@ =~= v@.take(mid as int));
        assert(right@ =~= v@.subrange(mid as int, n as int));
        assert(v@ =~= left@ + right@);
        vstd::seq_lib::lemma_multiset_commutative(left@, right@);
    }
    let sl = sort_keys(&left);
    let sr = sort_keys(&right);
    let r = merge(&sl, &sr);
    proof {
        vstd::seq_lib::to_multiset_len(r@);
        vstd::seq_lib::to_multiset_len(v@);
    }
    r
}

/// Removes repeated keys from a sorted vector: the result is strictly sorted
/// and holds exactly the keys of the input.
pub fn dedup_sorted(v: &Vec<u64>) -> (r: Vec<u64>)
    requires
        sorted(v@),
    ensures
        strictly_sorted(r@),
        forall|x: u64| r@.contains(x) <==> v@.contains(x),
        r.len() <= v.len(),
{
    let mut r: Vec<u64> = Vec::new();
    let mut i: usize = 0;
    while i < v.len()
        invariant
            sorted(v@),
            i <= v.len(),
            strictly_sorted(r@),
            r.len() <= i,
            forall|x: u64| r@.contains(x) <==> v@.take(i as int).contains(x),
            r.len() > 0 ==> i > 0 && r@.last() == v@[i - 1],
            i > 0 ==> r.len() > 0,
        decreases v.len() - i,
    {
        let x = v[i];
        let ghost old_r = r@;
        proof {
            assert(v@.take(i as int + 1) =~= v@.take(i as int).push(x));
        }
        if r.len() == 0 || r[r.len() - 1] != x {
            r.push(x);
            proof {
                assert forall|y: u64| r@.contains(y) <==> v@.take(i as int + 1).contains(y) by {
                    if r@.contains(y) && y != x {
                        let k = choose|k: int| 0 <= k < r.len() && r@[k] == y;
                        assert(old_r[k] == y);
                        assert(old_r.contains(y));
                        assert(v@.take(i as int).contains(y));
                        let j = choose|j: int| 0 <= j < i && v@.take(i as int)[j] == y;
                        assert(v@.take(i as int + 1)[j] == y);
                    }
                    if v@.take(i as int + 1).contains(y) && y != x {
                        let t = v@.take(i as int + 1);
                        let j = choose|j: int| 0 <= j < t.len() && t[j] == y;
                        assert(v@.take(i as int)[j] == y);
                        assert(v@.take(i as int).contains(y));
                        assert(old_r.contains(y));
                        let k = choose|k: int| 0 <= k < old_r.len() && old_r[k] == y;
                        assert(r@[k] == y);
                    }
                    if y == x {
                        assert(r@[r.len() - 1] == x);
                        assert(v@.take(i as int + 1)[i as int] == x);
                    }
                }
            }
        } else {
            proof {
                assert(old_r[old_r.len() - 1] == x);
                assert forall|y: u64| r@.contains(y) <==> v@.take(i as int + 1).contains(y) by {
                    if y == x {
                        assert(r@[r.len() - 1] == x);
                        assert(v@.take(i as int + 1)[i as int] == x);
                    }
                }
            }
        }
        i = i + 1;
    }
    proof {
        assert(v@.take(v.len() as int) =~= v@);
    }
    r
}

/// Finds a key in a strictly sorted vector by binary search.
pub fn find_key(v: &Vec<u64>, k: u64) -> (r: Option<usize>)
    requires
        strictly_sorted(v@),
    ensures
        match r {
            Some(i) => i < v.len() && v@[i as int] == k,
            None => !v@.contains(k),
        },
{
    let mut lo: usize = 0;
    let mut hi: usize = v.len();
    while lo < hi
        invariant
            strictly_sorted(v@),
            lo <= hi <= v.len(),
            forall|i: int| 0 <= i < lo ==> v@[i] < k,
            forall|i: int| hi <= i < v.len() ==> v@[i] > k,
        decreases hi - lo,
    {
        let mid = lo + (hi - lo) / 2;
        if v[mid] == k {
            return Some(mid);
        } else if v[mid] < k {
            lo = mid + 1;
        } else {
            hi = mid;
        }
    }
    None
}


/// Two sorted sequences holding the same multiset of keys are equal.
pub proof fn lemma_sorted_unique(a: Seq<u64>, b: Seq<u64>)
    requires
        sorted(a),
        sorted(b),
        a.to_multiset() == b.to_multiset(),
    ensures
        a == b,
    decreases a.len(),
{
    vstd::seq_lib::to_multiset_len(a);
    vstd::seq_lib::to_multiset_len(b);
    if a.len() == 0 {
        assert(a =~= b);
    } else {
        assert(a.to_multiset().count(a[0]) > 0) by {
            assert(a.contains(a[0]));
        }
        assert(b.contains(a[0]));
        let j = choose|j: int| 0 <= j < b.len() && b[j] == a[0];
        assert(b.to_multiset().count(b[0]) > 0) by {
            assert(b.contains(b[0]));
        }
        assert(a.contains(b[0]));
        let k = choose|k: int| 0 <= k < a.len() && a[k] == b[0];
        assert(a[0] <= a[k]);
        assert(b[0] <= b[j]);
        assert(a[0] == b[0]);
        assert(a.remove(0) =~= a.drop_first());
        assert(b.remove(0) =~= b.drop_first());
        vstd::seq_lib::to_multiset_remove(a, 0);
        vstd::seq_lib::to_multiset_remove(b, 0);
        lemma_sorted_unique(a.drop_first(), b.drop_first());
        assert(a =~= b) by {
            assert forall|i: int| 0 <= i < a.len() implies a[i] == b[i] by {
                if i > 0 {
                    assert(a[i] == a.drop_first()[i - 1]);
                    assert(b[i] == b.drop_first()[i - 1]);
                }
            }
        }
    }
}

/// The sorted arrangement of a key sequence.
pub open spec fn sorted_perm(s: Seq<u64>) -> Seq<u64> {
    choose|t: Seq<u64>| sorted(t) && t.to_multiset() == s.to_multiset()
}

/// A sorted sequence with the multiset of `s` is the sorted arrangement of `s`.
pub proof fn lemma_is_sorted_perm(s: Seq<u64>, t: Seq<u64>)
    requires
        sorted(t),
        t.to_multiset() == s.to_multiset(),
    ensures
        sorted_perm(s) == t,
{
    let u = sorted_perm(s);
    assert(sorted(u) && u.to_multiset() == s.to_multiset());
    lemma_sorted_unique(u, t);
}

/// The first (high) half of a key.
pub open spec fn key_hi(k: u64) -> int {
    k as int / key_base()
}

/// The second (low) half of a key.
pub open spec fn key_lo(k: u64) -> int {
    k as int % key_base()
}

/// A packed pair splits back into its halves.
pub proof fn lemma_pack_halves(a: u32, b: u32)
    ensures
        key_hi(pack_spec(a, b)) == a,
        key_lo(pack_spec(a, b)) == b,
{
    vstd::arithmetic::div_mod::lemma_fundamental_div_mod_converse(
        pack_spec(a, b) as int,
        key_base(),
        a as int,
        b as int,
    );
}

/// Key order is order on the first half, then on the second.
pub proof fn lemma_key_halves(k: u64)
    ensures
        0 <= key_hi(k) < key_base(),
        0 <= key_lo(k) < key_base(),
        k as int == key_hi(k) * key_base() + key_lo(k),
        pack_spec(key_hi(k) as u32, key_lo(k) as u32) == k,
{
    vstd::arithmetic::div_mod::lemma_fundamental_div_mod(k as int, key_base());
}

} // verus!
