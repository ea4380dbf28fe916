//! Algorithm B: the greedy split that offers n, n-1, ..., 1 in turn to the
//! first set while they fit into what is left of its target sum.
use vstd::prelude::*;
use crate::split::{
    solvable,
    seq_sum,
    triangle,
    is_split_of_range,
    is_equal_split,
    lemma_seq_sum_push,
    lemma_triangle_even,
    lemma_triangle_at_least,
    lemma_triangle_formula,
};

verus! {

/// What is left of the first set's target sum n(n+1)/4 once the values
/// n, n-1, ..., v+1 have been offered to it.
pub open spec fn greedy_remaining(n: nat, v: nat) -> nat
    decreases n - v,
{
    if v >= n {
        triangle(n) / 2
    } else {
        let r: nat = greedy_remaining(n, v + 1);
        if v + 1 <= r {
            (r - (v + 1)) as nat
        } else {
            r
        }
    }
}

/// The greedy pass puts `v` into the first set: it fits into what is left.
pub open spec fn greedy_takes(n: nat, v: nat) -> bool {
    v <= greedy_remaining(n, v)
}

/// The values of 1..=k that the greedy pass puts into the first set (`take`)
/// or into the second set (`!take`), in increasing order.
pub open spec fn greedy_side(n: nat, k: nat, take: bool) -> Seq<u32>
    decreases k,
{
    if k == 0 {
        Seq::empty()
    } else {
        let s = greedy_side(n, (k - 1) as nat, take);
        if greedy_takes(n, k) == take {
            s.push(k as u32)
        } else {
            s
        }
    }
}

/// A side of the greedy pass over 1..=k holds, in increasing order, exactly
/// the values of 1..=k that went to that side.
proof fn lemma_greedy_side_shape(n: nat, k: nat, take: bool)
    requires
        k <= n <= u32::MAX,
    ensures
        forall|i: int|
            0 <= i < greedy_side(n, k, take).len() ==> 1 <= #[trigger] greedy_side(n, k, take)[i]
                <= k,
        forall|i: int, j: int|
            0 <= i < j < greedy_side(n, k, take).len() ==> #[trigger] greedy_side(n, k, take)[i]
                < #[trigger] greedy_side(n, k, take)[j],
        forall|v: u32|
            #[trigger] greedy_side(n, k, take).contains(v) <==> 1 <= v <= k && greedy_takes(
                n,
                v as nat,
            ) == take,
    decreases k,
{
    if k > 0 {
        let p = greedy_side(n, (k - 1) as nat, take);
        lemma_greedy_side_shape(n, (k - 1) as nat, take);
        let s = greedy_side(n, k, take);
        if greedy_takes(n, k) == take {
            assert(s == p.push(k as u32));
            assert forall|v: u32| #[trigger] s.contains(v) <==> p.contains(v) || v == k by {
                if s.contains(v) {
                    let i = choose|i: int| 0 <= i < s.len() && s[i] == v;
                    if i < p.len() {
                        assert(p[i] == v);
                    }
                }
                if p.contains(v) {
                    let i = choose|i: int| 0 <= i < p.len() && p[i] == v;
                    assert(s[i] == v);
                }
                if v == k {
                    assert(s[p.len() as int] == v);
                }
            }
        }
    }
}

/// What is left of the target after offering the values above v is at most
/// 1 + 2 + ... + v.
proof fn lemma_greedy_remaining_bound(n: nat, v: nat)
    requires
        v <= n,
    ensures
        greedy_remaining(n, v) <= triangle(v),
    decreases n - v,
{
    if v < n {
        lemma_greedy_remaining_bound(n, v + 1);
        lemma_triangle_at_least(v);
        assert(triangle(v + 1) == v + 1 + triangle(v));
    }
}

/// The first side of 1..=k sums to what the values 1..=k took from the
/// target; both sides together sum to 1 + 2 + ... + k.
proof fn lemma_greedy_side_sums(n: nat, k: nat)
    requires
        k <= n <= u32::MAX,
    ensures
        seq_sum(greedy_side(n, k, true)) == greedy_remaining(n, k) - greedy_remaining(n, 0),
        seq_sum(greedy_side(n, k, true)) + seq_sum(greedy_side(n, k, false)) == triangle(k),
    decreases k,
{
    if k > 0 {
        let j: nat = (k - 1) as nat;
        lemma_greedy_side_sums(n, j);
        lemma_seq_sum_push(greedy_side(n, j, true), k as u32);
        lemma_seq_sum_push(greedy_side(n, j, false), k as u32);
        assert(triangle(k) == k + triangle(j));
        assert(greedy_remaining(n, j) == if greedy_takes(n, k) {
            greedy_remaining(n, k) - k
        } else {
            greedy_remaining(n, k) as int
        });
        if greedy_takes(n, k) {
            assert(greedy_side(n, k, true) == greedy_side(n, j, true).push(k as u32));
            assert(greedy_side(n, k, false) == greedy_side(n, j, false));
        } else {
            assert(greedy_side(n, k, false) == greedy_side(n, j, false).push(k as u32));
            assert(greedy_side(n, k, true) == greedy_side(n, j, true));
        }
    }
}

/// For every n with n % 4 in {0, 3}, the greedy pass splits 1..=n into two
/// sets of equal sum, each summing to n(n+1)/4.
pub proof fn lemma_greedy_is_equal_split(n: nat)
    requires
        solvable(n),
        n <= u32::MAX,
    ensures
        is_equal_split(n, greedy_side(n, n, true), greedy_side(n, n, false)),
        seq_sum(greedy_side(n, n, true)) == triangle(n) / 2,
{
    let a = greedy_side(n, n, true);
    let b = greedy_side(n, n, false);
    lemma_greedy_side_shape(n, n, true);
    lemma_greedy_side_shape(n, n, false);
    assert forall|i: int, j: int| 0 <= i < a.len() && 0 <= j < a.len() && i != j implies a[i]
        != a[j] by {
        if i < j {
            assert(a[i] < a[j]);
        } else {
            assert(a[j] < a[i]);
        }
    }
    assert forall|i: int, j: int| 0 <= i < b.len() && 0 <= j < b.len() && i != j implies b[i]
        != b[j] by {
        if i < j {
            assert(b[i] < b[j]);
        } else {
            assert(b[j] < b[i]);
        }
    }
    assert forall|i: int, j: int| 0 <= i < a.len() && 0 <= j < b.len() implies a[i] != b[j] by {
        assert(a.contains(a[i]));
        assert(b.contains(b[j]));
    }
    assert forall|v: u32| 1 <= v <= n implies #[trigger] a.contains(v) || b.contains(v) by {
        if greedy_takes(n, v as nat) {
            assert(a.contains(v));
        } else {
            assert(b.contains(v));
        }
    }
    assert(is_split_of_range(n, a, b));
    lemma_greedy_remaining_bound(n, 0);
    lemma_greedy_side_sums(n, n);
    lemma_triangle_even(n);
}

/// Algorithm B: State-Based Greedy Boolean Vector Partitioning.
///
/// Returns `None` when n % 4 is 1 or 2 (no equal split exists). Otherwise
/// it offers n, n-1, ..., 1 in turn to the first set, taking each that fits
/// into what is left of the target n(n+1)/4, and returns the taken values
/// and the others, each in increasing order.
pub fn solve_greedy_vector(n_val: u32) -> (res: Option<(Vec<u32>, Vec<u32>)>)
    requires
        n_val < usize::MAX,
    ensures
        res is Some <==> solvable(n_val as nat),
        res matches Some((set_a, set_b)) ==> {
            &&& set_a@ == greedy_side(n_val as nat, n_val as nat, true)
            &&& set_b@ == greedy_side(n_val as nat, n_val as nat, false)
            &&& is_equal_split(n_val as nat, set_a@, set_b@)
            &&& seq_sum(set_a@) == triangle(n_val as nat) / 2
        },
{
    let remainder: u32 = n_val % 4;
    if remainder == 1 || remainder == 2 {
        return None;
    }
    let ghost n: nat = n_val as nat;
    let n_usize: usize = n_val as usize;
    let mut membership_buffer: Vec<u8> = Vec::with_capacity(n_usize + 1);
    while membership_buffer.len() <= n_usize
        invariant
            n_usize < usize::MAX,
            membership_buffer@.len() <= n_usize + 1,
            forall|j: int| 0 <= j < membership_buffer@.len() ==> membership_buffer@[j] == 0,
        decreases n_usize + 1 - membership_buffer@.len(),
    {
        membership_buffer.push(0);
    }

    // total_sum / 2 = n * (n + 1) / 4
    assert((n_val as u64) * ((n_val as u64) + 1) <= u64::MAX) by (nonlinear_arith)
        requires
            n_val <= u32::MAX,
    ;
    let mut target_sum: u64 = (n_val as u64) * ((n_val as u64) + 1) / 4;
    proof {
        lemma_triangle_formula(n);
        assert(target_sum == triangle(n) / 2);
    }

    // Greedy loop from n down to 1
    let mut val_lookup: u32 = n_val;
    while val_lookup >= 1
        invariant
            n == n_val as nat,
            n_usize == n_val as usize,
            membership_buffer@.len() == n + 1,
            val_lookup <= n_val,
            target_sum == greedy_remaining(n, val_lookup as nat),
            forall|j: int|
                0 <= j <= n ==> #[trigger] membership_buffer@[j] == (if 1 <= j && val_lookup < j
                    && greedy_takes(n, j as nat) {
                    1u8
                } else {
                    0u8
                }),
        decreases val_lookup,
    {
        let val_u64 = val_lookup as u64;
        let ghost v: nat = val_lookup as nat;
        if val_u64 <= target_sum {
            membership_buffer.set(val_lookup as usize, 1);
            target_sum -= val_u64;
        }
        val_lookup -= 1;
        assert(greedy_remaining(n, val_lookup as nat) == if v <= greedy_remaining(n, v) {
            greedy_remaining(n, v) - v
        } else {
            greedy_remaining(n, v) as int
        });
    }

    let mut set_a: Vec<u32> = Vec::with_capacity((n_val / 2) as usize + 1);
    let mut set_b: Vec<u32> = Vec::with_capacity((n_val / 2) as usize + 1);

    // Sequential scan over the membership buffer
    let mut scan_idx: usize = 1;
    while scan_idx <= n_usize
        invariant
            n == n_val as nat,
            n_usize == n_val as usize,
            n_usize < usize::MAX,
            membership_buffer@.len() == n + 1,
            1 <= scan_idx <= n_usize + 1,
            forall|j: int|
                0 <= j <= n ==> #[trigger] membership_buffer@[j] == (if 1 <= j && greedy_takes(
                    n,
                    j as nat,
                ) {
                    1u8
                } else {
                    0u8
                }),
            set_a@ == greedy_side(n, (scan_idx - 1) as nat, true),
            set_b@ == greedy_side(n, (scan_idx - 1) as nat, false),
        decreases n_usize + 1 - scan_idx,
    {
        let is_in_set1 = membership_buffer[scan_idx];
        if is_in_set1 == 1 {
            set_a.push(scan_idx as u32);
        } else {
            set_b.push(scan_idx as u32);
        }
        scan_idx += 1;
    }
    proof {
        lemma_greedy_is_equal_split(n);
    }
    Some((set_a, set_b))
}

} // verus!
