//! How far a tick reaches from the axis line: the distance bins a pixel
//! column occupies are the bits of a `u64`, and the reach is the farthest
//! occupied bin connected to the line through gaps shorter than a limit.
use vstd::prelude::*;

verus! {

/// Bin `d` is occupied.
pub open spec fn bin_set(bits: u64, d: int) -> bool {
    0 <= d < 64 && (bits >> (d as u64)) & 1u64 == 1u64
}

/// The `g` bins from `s` on are all empty.
pub open spec fn empty_window(bits: u64, s: int, g: int) -> bool {
    forall|k: int| s <= k < s + g ==> !#[trigger] bin_set(bits, k)
}

/// Bin `d` is occupied and connected to the line: no `g` consecutive empty
/// bins lie before it.
pub open spec fn reaches(bits: u64, g: int, d: int) -> bool {
    &&& bin_set(bits, d)
    &&& forall|s: int| 0 <= s && s + g <= d ==> !#[trigger] empty_window(bits, s, g)
}

/// The gap that stops the scan: `max_gap` empty bins, at least one.
pub open spec fn stop_gap(max_gap: usize) -> int {
    if max_gap == 0 {
        1
    } else {
        max_gap as int
    }
}

proof fn lemma_bit_test(bits: u64, d: u64)
    requires
        d < 64,
    ensures
        (bits & (1u64 << d) != 0u64) == ((bits >> d) & 1u64 == 1u64),
{
    assert((bits & (1u64 << d) != 0u64) == ((bits >> d) & 1u64 == 1u64)) by (bit_vector)
        requires
            d < 64,
    ;
}

/// The farthest occupied bin reached from the line through gaps of fewer
/// than `max_gap` empty bins (scanning starts only if one of the first
/// `max_gap` bins is occupied), or -1 when no bin is reached.
pub fn connected_extent_with_gap(bits: u64, max_gap: usize) -> (r: i32)
    ensures
        r == -1 || (0 <= r < 64 && reaches(bits, stop_gap(max_gap), r as int)),
        forall|d: int| 0 <= d < 64 && #[trigger] reaches(bits, stop_gap(max_gap), d) ==> d <= r,
{
    let ghost g = stop_gap(max_gap);
    let mut max_d: i32 = -1;
    let mut zeros: usize = 0;
    let mut started = false;
    let mut d_bin: u64 = 0;
    while d_bin < 64
        invariant_except_break
            g == stop_gap(max_gap),
            d_bin <= 64,
            !started ==> max_d == -1 && zeros == 0 && forall|k: int| 0 <= k < d_bin ==> !bin_set(bits, k),
            !started ==> d_bin == 0 || d_bin < g,
            started ==> 0 <= max_d < d_bin && reaches(bits, g, max_d as int),
            started ==> zeros == d_bin - 1 - max_d && zeros < g,
            started ==> forall|k: int| max_d < k < d_bin ==> !bin_set(bits, k),
            forall|k: int| 0 <= k < d_bin && #[trigger] reaches(bits, g, k) ==> k <= max_d,
        ensures
            g == stop_gap(max_gap),
            max_d == -1 || (0 <= max_d < 64 && reaches(bits, g, max_d as int)),
            forall|k: int| 0 <= k < 64 && #[trigger] reaches(bits, g, k) ==> k <= max_d,
        decreases 64 - d_bin,
    {
        proof {
            lemma_bit_test(bits, d_bin);
        }
        if (bits & (1u64 << d_bin)) != 0 {
            proof {
                assert(bin_set(bits, d_bin as int));
                assert forall|s: int| 0 <= s && s + g <= d_bin implies !#[trigger] empty_window(bits, s, g) by {
                    if started {
                        if s + g <= max_d {
                            assert(!empty_window(bits, s, g));
                        } else {
                            assert(bin_set(bits, max_d as int));
                            assert(s <= max_d) by {
                                if s > max_d {
                                    assert(s + g <= d_bin);
                                    assert(d_bin - 1 - max_d < g);
                                }
                            }
                        }
                    } else {
                        assert(d_bin == 0 || d_bin < g);
                    }
                }
                assert(reaches(bits, g, d_bin as int));
            }
            started = true;
            max_d = d_bin as i32;
            zeros = 0;
        } else if started {
            zeros = zeros + 1;
            if zeros >= max_gap {
                proof {
                    assert(zeros >= g);
                    assert forall|k: int| 0 <= k < 64 && #[trigger] reaches(bits, g, k) implies k <= max_d by {
                        if k > max_d {
                            let s = max_d + 1;
                            assert(empty_window(bits, s, g)) by {
                                assert forall|j: int| s <= j < s + g implies !#[trigger] bin_set(bits, j) by {
                                    assert(j <= d_bin);
                                }
                            }
                            if k > d_bin {
                                assert(s + g <= k);
                            } else {
                                assert(!bin_set(bits, k));
                            }
                        }
                    }
                }
                break;
            }
        } else if d_bin + 1 >= max_gap as u64 {
            proof {
                assert forall|k: int| 0 <= k < 64 && #[trigger] reaches(bits, g, k) implies k <= max_d by {
                    assert(empty_window(bits, 0, g)) by {
                        assert forall|j: int| 0 <= j < g implies !#[trigger] bin_set(bits, j) by {
                            assert(j <= d_bin);
                        }
                    }
                    if k >= g {
                        assert(0 + g <= k);
                    } else {
                        assert(!bin_set(bits, k));
                    }
                }
            }
            break;
        }
        d_bin = d_bin + 1;
    }
    max_d
}

/// The reach of a tick column: gaps of three empty bins stop it.
pub fn connected_extent(bits: u64) -> (r: i32)
    ensures
        r == -1 || (0 <= r < 64 && reaches(bits, 3, r as int)),
        forall|d: int| 0 <= d < 64 && #[trigger] reaches(bits, 3, d) ==> d <= r,
{
    let r = connected_extent_with_gap(bits, 3);
    assert(stop_gap(3) == 3);
    r
}

} // verus!
