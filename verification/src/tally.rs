//! Counting coordinate values: how many pixels lie on each row or column,
//! and which row or column is the most heavily populated.
use vstd::prelude::*;
use crate::keys::{sort_keys, sorted, strictly_sorted};

verus! {

broadcast use vstd::seq_lib::group_to_multiset_ensures;

/// Number of occurrences of `v` in `s`.
pub open spec fn count_of(s: Seq<u64>, v: int) -> nat
    decreases s.len(),
{
    if s.len() == 0 {
        0
    } else {
        count_of(s.drop_last(), v) + if s.last() == v {
            1nat
        } else {
            0nat
        }
    }
}

/// Pixels on line `v` and on its two neighbouring lines; below line 0 the
/// window is clamped, so line 0 is counted twice there.
pub open spec fn line_density(s: Seq<u64>, v: int) -> int {
    let below = if v == 0 {
        0
    } else {
        v - 1
    };
    count_of(s, below) as int + count_of(s, v) as int + count_of(s, v + 1) as int
}

/// The score of line `v`: its three-line density when `smooth`, else its own count.
pub open spec fn line_score(s: Seq<u64>, v: int, smooth: bool) -> int {
    if smooth {
        line_density(s, v)
    } else {
        count_of(s, v) as int
    }
}

/// `v` is the lowest of the values of `s` with the highest score `d`.
pub open spec fn is_peak_line(s: Seq<u64>, smooth: bool, d: u128, v: u64) -> bool {
    &&& s.contains(v)
    &&& d == line_score(s, v as int, smooth)
    &&& forall|u: u64| #[trigger] s.contains(u) ==> line_score(s, u as int, smooth) <= d
    &&& forall|u: u64| #[trigger] s.contains(u) && u < v ==> line_score(s, u as int, smooth) < d
}

/// The peak line of `s` and its score (meaningful when `s` is not empty).
pub open spec fn peak_of(s: Seq<u64>, smooth: bool) -> (u128, u64) {
    choose|dv: (u128, u64)| is_peak_line(s, smooth, dv.0, dv.1)
}

/// A peak line is unique.
pub proof fn lemma_peak_unique(s: Seq<u64>, smooth: bool, d1: u128, v1: u64, d2: u128, v2: u64)
    requires
        is_peak_line(s, smooth, d1, v1),
        is_peak_line(s, smooth, d2, v2),
    ensures
        d1 == d2,
        v1 == v2,
{
    assert(line_score(s, v1 as int, smooth) <= d2);
    assert(line_score(s, v2 as int, smooth) <= d1);
    if v1 < v2 {
        assert(line_score(s, v1 as int, smooth) < d2);
    }
    if v2 < v1 {
        assert(line_score(s, v2 as int, smooth) < d1);
    }
}

/// Whatever peak is found is the one `peak_of` names.
pub proof fn lemma_peak_of(s: Seq<u64>, smooth: bool, d: u128, v: u64)
    requires
        is_peak_line(s, smooth, d, v),
    ensures
        peak_of(s, smooth) == (d, v),
{
    let dv = peak_of(s, smooth);
    assert(is_peak_line(s, smooth, (d, v).0, (d, v).1));
    lemma_peak_unique(s, smooth, dv.0, dv.1, d, v);
}

proof fn lemma_count_absent(s: Seq<u64>, v: int)
    requires
        forall|i: int| 0 <= i < s.len() ==> s[i] != v,
    ensures
        count_of(s, v) == 0,
    decreases s.len(),
{
    if s.len() > 0 {
        lemma_count_absent(s.drop_last(), v);
    }
}

proof fn lemma_count_multiset(s: Seq<u64>, v: u64)
    ensures
        count_of(s, v as int) == s.to_multiset().count(v),
    decreases s.len(),
{
    if s.len() > 0 {
        lemma_count_multiset(s.drop_last(), v);
        assert(s =~= s.drop_last().push(s.last()));
    }
}

/// Counts depend only on the multiset of values.
pub proof fn lemma_count_permutation(s1: Seq<u64>, s2: Seq<u64>, v: int)
    requires
        s1.to_multiset() == s2.to_multiset(),
    ensures
        count_of(s1, v) == count_of(s2, v),
{
    if 0 <= v <= u64::MAX {
        lemma_count_multiset(s1, v as u64);
        lemma_count_multiset(s2, v as u64);
    } else {
        lemma_count_absent(s1, v);
        lemma_count_absent(s2, v);
    }
}

proof fn lemma_count_le_len(s: Seq<u64>, v: int)
    ensures
        count_of(s, v) <= s.len(),
    decreases s.len(),
{
    if s.len() > 0 {
        lemma_count_le_len(s.drop_last(), v);
    }
}

/// The distinct values of `values` in increasing order, each with its number
/// of occurrences.
pub fn tally(values: &Vec<u64>) -> (r: (Vec<u64>, Vec<u64>))
    ensures
        strictly_sorted(r.0@),
        r.0.len() == r.1.len(),
        forall|v: u64| r.0@.contains(v) <==> values@.contains(v),
        forall|k: int| 0 <= k < r.0.len() ==> r.1@[k] == count_of(values@, #[trigger] r.0@[k] as int),
{
    let s = sort_keys(values);
    let ghost ss = s@;
    let mut vals: Vec<u64> = Vec::new();
    let mut counts: Vec<u64> = Vec::new();
    let mut i: usize = 0;
    while i < s.len()
        invariant
            ss == s@,
            sorted(ss),
            i <= ss.len(),
            strictly_sorted(vals@),
            vals.len() == counts.len(),
            forall|v: u64| vals@.contains(v) <==> ss.take(i as int).contains(v),
            forall|k: int|
                0 <= k < vals.len() ==> counts@[k] == count_of(ss.take(i as int), #[trigger] vals@[k] as int),
            forall|k: int| 0 <= k < vals.len() ==> #[trigger] counts@[k] <= i,
            i > 0 ==> vals.len() > 0 && vals@.last() == ss[i - 1],
            i == 0 ==> vals.len() == 0,
        decreases ss.len() - i,
    {
        let x = s[i];
        let ghost pre = ss.take(i as int);
        proof {
            assert(ss.take(i + 1).drop_last() =~= pre);
            assert(ss.take(i + 1) =~= pre.push(x));
            assert forall|v: int| #[trigger]
                count_of(ss.take(i + 1), v) == count_of(pre, v) + if x == v {
                    1nat
                } else {
                    0nat
                } by {}
        }
        let n = vals.len();
        if n > 0 && vals[n - 1] == x {
            let c = counts[n - 1];
            counts.set(n - 1, c + 1);
            proof {
                assert forall|k: int| 0 <= k < n - 1 implies #[trigger] vals@[k] != x by {
                    assert(vals@[k] < vals@[n - 1]);
                }
                assert forall|v: u64| vals@.contains(v) <==> ss.take(i + 1).contains(v) by {
                    if ss.take(i + 1).contains(v) && !pre.contains(v) {
                        let j = choose|j: int| 0 <= j < i + 1 && #[trigger] ss.take(i + 1)[j] == v;
                        if j < i {
                            assert(pre[j] == v);
                        }
                    }
                    if pre.contains(v) {
                        let j = choose|j: int| 0 <= j < i && #[trigger] pre[j] == v;
                        assert(ss.take(i + 1)[j] == v);
                    }
                }
            }
        } else {
            let ghost old_vals = vals@;
            proof {
                if i > 0 {
                    assert(ss[i - 1] <= x);
                    assert forall|k: int| 0 <= k < n implies #[trigger] old_vals[k] < x by {
                        if k < n - 1 {
                            assert(old_vals[k] < old_vals[n - 1]);
                        }
                    }
                }
                assert(!pre.contains(x)) by {
                    if pre.contains(x) {
                        assert(old_vals.contains(x));
                        let k = choose|k: int| 0 <= k < n && #[trigger] old_vals[k] == x;
                    }
                }
                lemma_count_absent(pre, x as int);
            }
            vals.push(x);
            counts.push(1);
            proof {
                assert(vals@ == old_vals.push(x));
                assert forall|v: u64| vals@.contains(v) <==> ss.take(i + 1).contains(v) by {
                    if ss.take(i + 1).contains(v) {
                        let j = choose|j: int| 0 <= j < i + 1 && #[trigger] ss.take(i + 1)[j] == v;
                        if j < i {
                            assert(pre[j] == v);
                            assert(old_vals.contains(v));
                            let k = choose|k: int| 0 <= k < n && #[trigger] old_vals[k] == v;
                            assert(vals@[k] == v);
                        } else {
                            assert(vals@[n as int] == v);
                        }
                    }
                    if vals@.contains(v) {
                        let k = choose|k: int| 0 <= k < n + 1 && #[trigger] vals@[k] == v;
                        if k < n {
                            assert(old_vals[k] == v);
                            assert(old_vals.contains(v));
                            assert(pre.contains(v));
                            let j = choose|j: int| 0 <= j < i && #[trigger] pre[j] == v;
                            assert(ss.take(i + 1)[j] == v);
                        } else {
                            assert(ss.take(i + 1)[i as int] == v);
                        }
                    }
                }
                assert forall|k: int| 0 <= k < n implies #[trigger] vals@[k] != x by {
                    assert(old_vals[k] == vals@[k]);
                }
            }
        }
        i = i + 1;
    }
    proof {
        assert(ss.take(ss.len() as int) =~= ss);
        assert forall|k: int| 0 <= k < vals.len() implies counts@[k] == count_of(
            values@,
            #[trigger] vals@[k] as int,
        ) by {
            lemma_count_permutation(ss, values@, vals@[k] as int);
        }
        assert forall|v: u64| vals@.contains(v) <==> values@.contains(v) by {
            lemma_count_multiset(ss, v);
            lemma_count_multiset(values@, v);
        }
    }
    (vals, counts)
}

/// The value of `values` whose line scores highest, lowest value first on
/// ties, with its score; `None` for no values.
pub fn peak_line(values: &Vec<u64>, smooth: bool) -> (r: Option<(u128, u64)>)
    ensures
        r is None <==> values.len() == 0,
        r matches Some((d, v)) ==> is_peak_line(values@, smooth, d, v) && peak_of(values@, smooth) == (d, v),
{
    let (vals, counts) = tally(values);
    let ghost s = values@;
    proof {
        assert forall|k: int| 0 <= k < vals.len() implies #[trigger] counts@[k] <= s.len() by {
            lemma_count_le_len(s, vals@[k] as int);
        }
        if s.len() > 0 {
            assert(s.contains(s[0]));
            assert(vals@.contains(s[0]));
        }
    }
    let n = vals.len();
    let mut best: Option<(u128, u64)> = None;
    let mut k: usize = 0;
    while k < n
        invariant
            n == vals.len(),
            n == counts.len(),
            k <= n,
            s == values@,
            strictly_sorted(vals@),
            forall|v: u64| vals@.contains(v) <==> s.contains(v),
            forall|j: int| 0 <= j < n ==> counts@[j] == count_of(s, #[trigger] vals@[j] as int),
            forall|j: int| 0 <= j < n ==> #[trigger] counts@[j] <= s.len(),
            k == 0 <==> best is None,
            best matches Some((d, v)) ==> {
                &&& s.contains(v)
                &&& k > 0 && v <= vals@[k - 1]
                &&& d == line_score(s, v as int, smooth)
                &&& forall|j: int| 0 <= j < k ==> line_score(s, #[trigger] vals@[j] as int, smooth) <= d
                &&& forall|j: int|
                    0 <= j < k && #[trigger] vals@[j] < v ==> line_score(s, vals@[j] as int, smooth) < d
            },
        decreases n - k,
    {
        let v = vals[k];
        let c = counts[k];
        let mut score: u128 = c as u128;
        proof {
            assert(vals@.contains(v));
        }
        if smooth {
            let below: u128 = if v == 0 {
                c as u128
            } else if k > 0 && vals[k - 1] == v - 1 {
                counts[k - 1] as u128
            } else {
                0
            };
            let above: u128 = if k + 1 < n && v < u64::MAX && vals[k + 1] == v + 1 {
                counts[k + 1] as u128
            } else {
                0
            };
            proof {
                if v > 0 && !(k > 0 && vals@[k - 1] == v - 1) {
                    assert forall|i: int| 0 <= i < s.len() implies s[i] != v - 1 by {
                        if s[i] == v - 1 {
                            assert(s.contains(s[i]));
                            assert(vals@.contains(s[i]));
                            let j = choose|j: int| 0 <= j < n && #[trigger] vals@[j] == s[i];
                            if j < k {
                                assert(vals@[j] <= vals@[k - 1]);
                            } else if j > k {
                                assert(vals@[k as int] < vals@[j]);
                            }
                        }
                    }
                    lemma_count_absent(s, v - 1);
                }
                if !(k + 1 < n && v < u64::MAX && vals@[k + 1] == v + 1) {
                    assert forall|i: int| 0 <= i < s.len() implies s[i] != v + 1 by {
                        if s[i] == v + 1 {
                            assert(s.contains(s[i]));
                            assert(vals@.contains(s[i]));
                            let j = choose|j: int| 0 <= j < n && #[trigger] vals@[j] == s[i];
                            if j < k {
                                assert(vals@[j] < vals@[k as int]);
                            } else if j > k + 1 {
                                assert(vals@[k + 1] < vals@[j]);
                            }
                        }
                    }
                    lemma_count_absent(s, v + 1);
                }
            }
            score = below + c as u128 + above;
        }
        proof {
            assert(score == line_score(s, v as int, smooth));
        }
        match best {
            Some((d, _)) => {
                if score > d {
                    best = Some((score, v));
                    proof {
                        assert forall|j: int| 0 <= j < k + 1 && #[trigger] vals@[j] < v implies line_score(
                            s,
                            vals@[j] as int,
                            smooth,
                        ) < score by {}
                    }
                }
            },
            None => {
                best = Some((score, v));
                proof {
                    assert forall|j: int| 0 <= j < k + 1 && #[trigger] vals@[j] < v implies line_score(
                        s,
                        vals@[j] as int,
                        smooth,
                    ) < score by {
                        assert(j == k);
                    }
                }
            },
        }
        k = k + 1;
    }
    proof {
        if let Some((d, v)) = best {
            assert forall|u: u64| #[trigger] s.contains(u) implies line_score(s, u as int, smooth) <= d by {
                assert(vals@.contains(u));
                let j = choose|j: int| 0 <= j < n && #[trigger] vals@[j] == u;
            }
            assert forall|u: u64| #[trigger] s.contains(u) && u < v implies line_score(
                s,
                u as int,
                smooth,
            ) < d by {
                assert(vals@.contains(u));
                let j = choose|j: int| 0 <= j < n && #[trigger] vals@[j] == u;
            }
            lemma_peak_of(s, smooth, d, v);
        }
    }
    best
}

} // verus!
