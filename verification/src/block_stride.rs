//! Algorithm A: the split built directly from blocks of four consecutive
//! numbers.
use vstd::prelude::*;
use crate::split::{
    solvable,
    seq_sum,
    triangle,
    is_split_of_range,
    is_equal_split,
    lemma_seq_sum_push,
    lemma_split_sum,
};

verus! {

/// The element at position `i` of the first set.
///
/// For n % 4 == 0 the blocks (4k+1, 4k+2, 4k+3, 4k+4) give 4k+1 and 4k+4 to
/// the first set. For n % 4 == 3 the first set starts with 1, 2 and the
/// blocks (4k, 4k+1, 4k+2, 4k+3), k >= 1, give it 4k and 4k+3.
pub open spec fn stride_a_at(n: nat, i: int) -> int {
    if n % 4 == 0 {
        if i % 2 == 0 {
            2 * i + 1
        } else {
            2 * i + 2
        }
    } else {
        if i < 2 {
            i + 1
        } else if i % 2 == 0 {
            2 * i
        } else {
            2 * i + 1
        }
    }
}

/// The element at position `i` of the second set: 4k+2 and 4k+3 for
/// n % 4 == 0; 3, then 4k+1 and 4k+2 for n % 4 == 3.
pub open spec fn stride_b_at(n: nat, i: int) -> int {
    if n % 4 == 0 {
        if i % 2 == 0 {
            2 * i + 2
        } else {
            2 * i + 1
        }
    } else {
        if i == 0 {
            3
        } else if i % 2 == 1 {
            2 * i + 3
        } else {
            2 * i + 2
        }
    }
}

/// The first set that the block construction gives for `n`.
pub open spec fn block_stride_a(n: nat) -> Seq<u32> {
    Seq::new((n + 1) / 2, |i: int| stride_a_at(n, i) as u32)
}

/// The second set that the block construction gives for `n`.
pub open spec fn block_stride_b(n: nat) -> Seq<u32> {
    Seq::new(n / 2, |i: int| stride_b_at(n, i) as u32)
}

/// The positions of the first set hold increasing numbers in 1..=n.
proof fn lemma_stride_a_shape(n: nat, i: int, j: int)
    requires
        solvable(n),
        0 <= i < j < (n + 1) / 2,
    ensures
        1 <= stride_a_at(n, i) < stride_a_at(n, j) <= n,
        n % 4 == 0 ==> stride_a_at(n, i) % 4 == 1 || stride_a_at(n, i) % 4 == 0,
        n % 4 == 3 && i >= 2 ==> stride_a_at(n, i) % 4 == 0 || stride_a_at(n, i) % 4 == 3,
        n % 4 == 3 && i >= 2 ==> stride_a_at(n, i) >= 4,
{
}

/// The positions of the second set hold increasing numbers in 1..=n.
proof fn lemma_stride_b_shape(n: nat, i: int, j: int)
    requires
        solvable(n),
        0 <= i < j < n / 2,
    ensures
        1 <= stride_b_at(n, i) < stride_b_at(n, j) <= n,
        n % 4 == 0 ==> stride_b_at(n, i) % 4 == 2 || stride_b_at(n, i) % 4 == 3,
        n % 4 == 3 && i >= 1 ==> stride_b_at(n, i) % 4 == 1 || stride_b_at(n, i) % 4 == 2,
        n % 4 == 3 && i >= 1 ==> stride_b_at(n, i) >= 5,
{
}

/// The last position of each set holds a number no larger than n.
proof fn lemma_stride_last(n: nat)
    requires
        solvable(n),
    ensures
        (n + 1) / 2 >= 1 ==> 1 <= stride_a_at(n, (n + 1) / 2 - 1) <= n,
        n / 2 >= 1 ==> 1 <= stride_b_at(n, n / 2 - 1) <= n,
        n % 4 == 3 && (n + 1) / 2 - 1 >= 2 ==> stride_a_at(n, (n + 1) / 2 - 1) % 4 == 0
            || stride_a_at(n, (n + 1) / 2 - 1) % 4 == 3,
        n % 4 == 3 && n / 2 - 1 >= 1 ==> stride_b_at(n, n / 2 - 1) % 4 == 1 || stride_b_at(
            n,
            n / 2 - 1,
        ) % 4 == 2,
        n % 4 == 0 && (n + 1) / 2 >= 1 ==> stride_a_at(n, (n + 1) / 2 - 1) % 4 == 0,
        n % 4 == 0 && n / 2 >= 1 ==> stride_b_at(n, n / 2 - 1) % 4 == 3,
{
}

/// Every number of 1..=n sits at a known position of one of the two sets.
proof fn lemma_stride_cover(n: nat, v: int)
    requires
        solvable(n),
        1 <= v <= n,
    ensures
        (exists|i: int| 0 <= i < (n + 1) / 2 && stride_a_at(n, i) == v) || (exists|i: int|
            0 <= i < n / 2 && stride_b_at(n, i) == v),
{
    if n % 4 == 0 {
        if v % 4 == 1 {
            assert(stride_a_at(n, (v - 1) / 2) == v);
        } else if v % 4 == 0 {
            assert(stride_a_at(n, (v - 2) / 2) == v);
        } else if v % 4 == 2 {
            assert(stride_b_at(n, (v - 2) / 2) == v);
        } else {
            assert(stride_b_at(n, (v - 1) / 2) == v);
        }
    } else {
        if v <= 2 {
            assert(stride_a_at(n, v - 1) == v);
        } else if v == 3 {
            assert(stride_b_at(n, 0) == v);
        } else if v % 4 == 0 {
            assert(stride_a_at(n, v / 2) == v);
        } else if v % 4 == 3 {
            assert(stride_a_at(n, (v - 1) / 2) == v);
        } else if v % 4 == 1 {
            assert(stride_b_at(n, (v - 3) / 2) == v);
        } else {
            assert(stride_b_at(n, (v - 2) / 2) == v);
        }
    }
}

/// The first 2k (resp. 2k+2 and 2k+1) elements of the two sets have equal
/// sums: each block adds the same amount to both.
proof fn lemma_stride_prefix_sums(n: nat, k: int)
    requires
        k >= 0,
        solvable(n),
        n <= u32::MAX,
        n % 4 == 0 ==> 2 * k <= n / 2,
        n % 4 == 3 ==> 2 * k + 1 <= n / 2,
    ensures
        n % 4 == 0 ==> seq_sum(block_stride_a(n).take(2 * k)) == seq_sum(
            block_stride_b(n).take(2 * k),
        ),
        n % 4 == 3 ==> seq_sum(block_stride_a(n).take(2 * k + 2)) == seq_sum(
            block_stride_b(n).take(2 * k + 1),
        ),
    decreases k,
{
    let a = block_stride_a(n);
    let b = block_stride_b(n);
    if n % 4 == 0 {
        if k == 0 {
            assert(a.take(0) =~= Seq::<u32>::empty());
            assert(b.take(0) =~= Seq::<u32>::empty());
        } else {
            let j: int = k - 1;
            lemma_stride_prefix_sums(n, j);
            let p: int = 2 * j;
            assert(a.take(p + 2) =~= a.take(p).push(a[p]).push(a[p + 1]));
            assert(b.take(p + 2) =~= b.take(p).push(b[p]).push(b[p + 1]));
            lemma_seq_sum_push(a.take(p), a[p]);
            lemma_seq_sum_push(a.take(p).push(a[p]), a[p + 1]);
            lemma_seq_sum_push(b.take(p), b[p]);
            lemma_seq_sum_push(b.take(p).push(b[p]), b[p + 1]);
            assert(a[p] + a[p + 1] == b[p] + b[p + 1]);
        }
    } else {
        if k == 0 {
            assert(a.take(2) =~= Seq::<u32>::empty().push(a[0]).push(a[1]));
            assert(b.take(1) =~= Seq::<u32>::empty().push(b[0]));
            lemma_seq_sum_push(Seq::<u32>::empty(), a[0]);
            lemma_seq_sum_push(Seq::<u32>::empty().push(a[0]), a[1]);
            lemma_seq_sum_push(Seq::<u32>::empty(), b[0]);
        } else {
            let j: int = k - 1;
            lemma_stride_prefix_sums(n, j);
            let p: int = 2 * j + 2;
            let q: int = 2 * j + 1;
            assert(a.take(p + 2) =~= a.take(p).push(a[p]).push(a[p + 1]));
            assert(b.take(q + 2) =~= b.take(q).push(b[q]).push(b[q + 1]));
            lemma_seq_sum_push(a.take(p), a[p]);
            lemma_seq_sum_push(a.take(p).push(a[p]), a[p + 1]);
            lemma_seq_sum_push(b.take(q), b[q]);
            lemma_seq_sum_push(b.take(q).push(b[q]), b[q + 1]);
            assert(a[p] + a[p + 1] == b[q] + b[q + 1]);
        }
    }
}

/// For every n with n % 4 in {0, 3}, the block construction splits 1..=n
/// into two sets of equal sum, each summing to n(n+1)/4.
pub proof fn lemma_block_stride_is_equal_split(n: nat)
    requires
        solvable(n),
        n <= u32::MAX,
    ensures
        is_equal_split(n, block_stride_a(n), block_stride_b(n)),
        seq_sum(block_stride_a(n)) == triangle(n) / 2,
{
    let a = block_stride_a(n);
    let b = block_stride_b(n);
    let la: int = ((n + 1) / 2) as int;
    let lb: int = (n / 2) as int;
    lemma_stride_last(n);
    assert forall|i: int| 0 <= i < a.len() implies 1 <= #[trigger] a[i] <= n by {
        if i + 1 < la {
            lemma_stride_a_shape(n, i, la - 1);
        }
    }
    assert forall|i: int| 0 <= i < b.len() implies 1 <= #[trigger] b[i] <= n by {
        if i + 1 < lb {
            lemma_stride_b_shape(n, i, lb - 1);
        }
    }
    assert forall|i: int, j: int| 0 <= i < a.len() && 0 <= j < a.len() && i != j implies a[i]
        != a[j] by {
        if i < j {
            lemma_stride_a_shape(n, i, j);
        } else {
            lemma_stride_a_shape(n, j, i);
        }
    }
    assert forall|i: int, j: int| 0 <= i < b.len() && 0 <= j < b.len() && i != j implies b[i]
        != b[j] by {
        if i < j {
            lemma_stride_b_shape(n, i, j);
        } else {
            lemma_stride_b_shape(n, j, i);
        }
    }
    assert forall|i: int, j: int| 0 <= i < a.len() && 0 <= j < b.len() implies a[i] != b[j] by {
        if i + 1 < la {
            lemma_stride_a_shape(n, i, la - 1);
        }
        if j + 1 < lb {
            lemma_stride_b_shape(n, j, lb - 1);
        }
    }
    assert forall|v: u32| 1 <= v <= n implies #[trigger] a.contains(v) || b.contains(v) by {
        lemma_stride_cover(n, v as int);
        if exists|i: int| 0 <= i < la && stride_a_at(n, i) == v {
            let i = choose|i: int| 0 <= i < la && stride_a_at(n, i) == v;
            assert(a[i] == v);
        } else {
            let i = choose|i: int| 0 <= i < lb && stride_b_at(n, i) == v;
            assert(b[i] == v);
        }
    }
    assert(is_split_of_range(n, a, b));
    if n % 4 == 0 {
        let m: int = (n / 4) as int;
        lemma_stride_prefix_sums(n, m);
        assert(a.take(2 * m) =~= a);
        assert(b.take(2 * m) =~= b);
    } else {
        let m: int = (n / 4) as int;
        lemma_stride_prefix_sums(n, m);
        assert(a.take(2 * m + 2) =~= a);
        assert(b.take(2 * m + 1) =~= b);
    }
    lemma_split_sum(n, a, b);
}

/// Algorithm A: Zero-Allocation Stride-Based Block Partitioning.
///
/// Returns `None` when n % 4 is 1 or 2 (no equal split exists), and
/// otherwise the two sets of the block construction, in increasing order.
pub fn solve_block_stride(n_val: u32) -> (res: Option<(Vec<u32>, Vec<u32>)>)
    requires
        n_val < u32::MAX,
    ensures
        res is Some <==> solvable(n_val as nat),
        res matches Some((set_a, set_b)) ==> {
            &&& set_a@ == block_stride_a(n_val as nat)
            &&& set_b@ == block_stride_b(n_val as nat)
            &&& is_equal_split(n_val as nat, set_a@, set_b@)
            &&& seq_sum(set_a@) == triangle(n_val as nat) / 2
        },
{
    let remainder: u32 = n_val % 4;
    if remainder == 1 || remainder == 2 {
        return None;
    }
    let ghost n: nat = n_val as nat;
    let mut set_a: Vec<u32> = Vec::with_capacity((n_val / 2) as usize + 1);
    let mut set_b: Vec<u32> = Vec::with_capacity((n_val / 2) as usize + 1);

    if remainder == 0 {
        // Stride pattern of size 4: (4k+1, 4k+2, 4k+3, 4k+4)
        // Group sum: (4k+1) + (4k+4) = (4k+2) + (4k+3) = 8k+5
        let stride_length: u32 = 4;
        let mut offset_idx: u32 = 1;
        while offset_idx <= n_val
            invariant
                n == n_val as nat,
                n % 4 == 0,
                n_val < u32::MAX,
                stride_length == 4,
                offset_idx == 2 * set_a@.len() + 1,
                set_b@.len() == set_a@.len(),
                offset_idx <= n_val + 1,
                offset_idx % 4 == 1,
                forall|i: int| 0 <= i < set_a@.len() ==> set_a@[i] == stride_a_at(n, i),
                forall|i: int| 0 <= i < set_b@.len() ==> set_b@[i] == stride_b_at(n, i),
            decreases n_val + 1 - offset_idx,
        {
            set_a.push(offset_idx);
            set_b.push(offset_idx + 1);
            set_b.push(offset_idx + 2);
            set_a.push(offset_idx + 3);
            offset_idx += stride_length;
        }
    } else {
        // Base case for the first 3 elements: {1, 2} vs {3}
        set_a.push(1);
        set_a.push(2);
        set_b.push(3);

        // Stride pattern starting from 4: (4k, 4k+1, 4k+2, 4k+3) for k >= 1
        // Group sum: 4k + (4k+3) = (4k+1) + (4k+2) = 8k+3
        let stride_length: u32 = 4;
        let mut offset_idx: u32 = 4;
        while offset_idx <= n_val
            invariant
                n == n_val as nat,
                n % 4 == 3,
                n_val < u32::MAX,
                stride_length == 4,
                offset_idx == 2 * set_a@.len(),
                set_b@.len() + 1 == set_a@.len(),
                4 <= offset_idx <= n_val + 1,
                offset_idx % 4 == 0,
                forall|i: int| 0 <= i < set_a@.len() ==> set_a@[i] == stride_a_at(n, i),
                forall|i: int| 0 <= i < set_b@.len() ==> set_b@[i] == stride_b_at(n, i),
            decreases n_val + 1 - offset_idx,
        {
            set_a.push(offset_idx);
            set_b.push(offset_idx + 1);
            set_b.push(offset_idx + 2);
            set_a.push(offset_idx + 3);
            offset_idx += stride_length;
        }
    }
    assert(set_a@ =~= block_stride_a(n));
    assert(set_b@ =~= block_stride_b(n));
    proof {
        lemma_block_stride_is_equal_split(n);
    }
    Some((set_a, set_b))
}

} // verus!
