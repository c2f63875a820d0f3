//! Splitting sorted values into clusters separated by wide gaps.
use vstd::prelude::*;

verus! {

// ----------------------------------------------------------------
//  Value clustering
// ----------------------------------------------------------------

/// The concatenation of a list of value clusters.
pub open spec fn concat_clusters(cs: Seq<Vec<u32>>) -> Seq<u32>
    decreases cs.len(),
{
    if cs.len() == 0 {
        Seq::empty()
    } else {
        concat_clusters(cs.drop_last()) + cs.last()@
    }
}

proof fn lemma_concat_push(cs: Seq<Vec<u32>>, c: Vec<u32>)
    ensures
        concat_clusters(cs.push(c)) == concat_clusters(cs) + c@,
{
    assert(cs.push(c).drop_last() =~= cs);
}

/// Clustering facts that survive appending a new cluster.
proof fn lemma_clusters_push(cs: Seq<Vec<u32>>, c: Vec<u32>, max_gap: u32)
    requires
        forall|k: int| 0 <= k < cs.len() ==> (#[trigger] cs[k]@).len() > 0,
        forall|k: int, i: int|
            0 <= k < cs.len() && 0 < i < cs[k]@.len() ==> #[trigger] cs[k]@[i] - cs[k]@[i - 1] <= max_gap,
        forall|k: int| 0 < k < cs.len() ==> #[trigger] cs[k]@[0] - cs[k - 1]@.last() > max_gap,
        c@.len() > 0,
        forall|i: int| 0 < i < c@.len() ==> #[trigger] c@[i] - c@[i - 1] <= max_gap,
        cs.len() > 0 ==> c@[0] - cs.last()@.last() > max_gap,
    ensures
        forall|k: int| 0 <= k < cs.push(c).len() ==> (#[trigger] cs.push(c)[k]@).len() > 0,
        forall|k: int, i: int|
            0 <= k < cs.push(c).len() && 0 < i < cs.push(c)[k]@.len() ==> #[trigger] cs.push(c)[k]@[i]
                - cs.push(c)[k]@[i - 1] <= max_gap,
        forall|k: int| 0 < k < cs.push(c).len() ==> #[trigger] cs.push(c)[k]@[0] - cs.push(c)[k - 1]@.last() > max_gap,
{
    let t = cs.push(c);
    assert forall|k: int, i: int| 0 <= k < t.len() && 0 < i < t[k]@.len() implies #[trigger] t[k]@[i] - t[k]@[i
        - 1] <= max_gap by {
        if k < cs.len() {
            assert(t[k] == cs[k]);
        }
    }
    assert forall|k: int| 0 < k < t.len() implies #[trigger] t[k]@[0] - t[k - 1]@.last() > max_gap by {
        if k < cs.len() {
            assert(t[k] == cs[k]);
            assert(t[k - 1] == cs[k - 1]);
        }
    }
    assert forall|k: int| 0 <= k < t.len() implies (#[trigger] t[k]@).len() > 0 by {
        if k < cs.len() {
            assert(t[k] == cs[k]);
        }
    }
}

/// A nondecreasing value sequence.
pub open spec fn values_sorted(s: Seq<u32>) -> bool {
    forall|i: int, j: int| 0 <= i < j < s.len() ==> s[i] <= s[j]
}

/// `cs` splits `vals` into its maximal runs whose consecutive values differ
/// by at most `max_gap`.
pub open spec fn is_gap_clustering(vals: Seq<u32>, max_gap: u32, cs: Seq<Vec<u32>>) -> bool {
    &&& concat_clusters(cs) == vals
    &&& forall|c: int| 0 <= c < cs.len() ==> (#[trigger] cs[c]@).len() > 0
    &&& forall|c: int, i: int|
        0 <= c < cs.len() && 0 < i < cs[c]@.len() ==> #[trigger] cs[c]@[i] - cs[c]@[i - 1] <= max_gap
    &&& forall|c: int|
        0 < c < cs.len() ==> #[trigger] cs[c]@[0] - cs[c - 1]@.last() > max_gap
}

/// Splits sorted values into clusters: a gap larger than `max_gap` between
/// consecutive values starts a new cluster.
#[verifier::rlimit(50)]
pub fn cluster_values(sorted: &[u32], max_gap: u32) -> (cs: Vec<Vec<u32>>)
    requires
        values_sorted(sorted@),
    ensures
        is_gap_clustering(sorted@, max_gap, cs@),
{
    let mut cs: Vec<Vec<u32>> = Vec::new();
    if sorted.len() == 0 {
        assert(concat_clusters(cs@) =~= sorted@);
        return cs;
    }
    let mut cur: Vec<u32> = Vec::new();
    cur.push(sorted[0]);
    let mut i: usize = 1;
    while i < sorted.len()
        invariant
            values_sorted(sorted@),
            1 <= i <= sorted@.len(),
            cur@.len() > 0,
            cur@.last() == sorted@[i - 1],
            concat_clusters(cs@) + cur@ == sorted@.take(i as int),
            forall|c: int| 0 <= c < cs@.len() ==> (#[trigger] cs@[c]@).len() > 0,
            forall|c: int, k: int|
                0 <= c < cs@.len() && 0 < k < cs@[c]@.len() ==> #[trigger] cs@[c]@[k] - cs@[c]@[k - 1] <= max_gap,
            forall|c: int| 0 < c < cs@.len() ==> #[trigger] cs@[c]@[0] - cs@[c - 1]@.last() > max_gap,
            forall|k: int| 0 < k < cur@.len() ==> #[trigger] cur@[k] - cur@[k - 1] <= max_gap,
            cs@.len() > 0 ==> cur@[0] - cs@.last()@.last() > max_gap,
        decreases sorted@.len() - i,
    {
        let v = sorted[i];
        let last = cur[cur.len() - 1];
        assert(last <= v);
        proof {
            assert(sorted@.take(i as int + 1) =~= sorted@.take(i as int).push(v));
        }
        if v - last > max_gap {
            let ghost old_cs = cs@;
            let ghost cur_val = cur;
            proof {
                lemma_concat_push(old_cs, cur_val);
                lemma_clusters_push(old_cs, cur_val, max_gap);
            }
            cs.push(cur);
            cur = Vec::new();
            cur.push(v);
            proof {
                assert(cs@ == old_cs.push(cur_val));
                assert(concat_clusters(cs@) + cur@ =~= sorted@.take(i as int + 1));
            }
        } else {
            let ghost old_cur = cur@;
            cur.push(v);
            proof {
                assert(concat_clusters(cs@) + cur@ =~= (concat_clusters(cs@) + old_cur).push(v));
                assert forall|k: int| 0 < k < cur@.len() implies #[trigger] cur@[k] - cur@[k - 1] <= max_gap by {
                    if k < old_cur.len() {
                        assert(cur@[k] == old_cur[k]);
                        assert(cur@[k - 1] == old_cur[k - 1]);
                    }
                }
            }
        }
        i = i + 1;
    }
    let ghost old_cs = cs@;
    let ghost cur_val = cur;
    proof {
        lemma_concat_push(old_cs, cur_val);
        lemma_clusters_push(old_cs, cur_val, max_gap);
    }
    cs.push(cur);
    proof {
        assert(cs@ == old_cs.push(cur_val));
        assert(sorted@.take(sorted@.len() as int) =~= sorted@);
    }
    cs
}

} // verus!
