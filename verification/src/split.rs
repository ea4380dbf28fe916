//! What it means to split the numbers 1 to n into two sets of equal sum,
//! and the facts about such splits that hold whatever algorithm builds them.
use vstd::prelude::*;

verus! {

/// 1 + 2 + ... + n.
pub open spec fn triangle(n: nat) -> nat
    decreases n,
{
    if n == 0 {
        0
    } else {
        n + triangle((n - 1) as nat)
    }
}

/// The sum of the elements of `s`.
pub open spec fn seq_sum(s: Seq<u32>) -> int
    decreases s.len(),
{
    if s.len() == 0 {
        0
    } else {
        seq_sum(s.drop_last()) + s.last()
    }
}

/// An equal split of 1..=n exists exactly for these n (the total
/// n(n+1)/2 is even).
pub open spec fn solvable(n: nat) -> bool {
    n % 4 == 0 || n % 4 == 3
}

/// `a` and `b` hold each of the numbers 1 to n exactly once between them,
/// and nothing else.
pub open spec fn is_split_of_range(n: nat, a: Seq<u32>, b: Seq<u32>) -> bool {
    &&& forall|i: int| 0 <= i < a.len() ==> 1 <= #[trigger] a[i] <= n
    &&& forall|i: int| 0 <= i < b.len() ==> 1 <= #[trigger] b[i] <= n
    &&& a.no_duplicates()
    &&& b.no_duplicates()
    &&& a.disjoint(b)
    &&& forall|v: u32|
        #![trigger a.contains(v)]
        #![trigger b.contains(v)]
        1 <= v <= n ==> a.contains(v) || b.contains(v)
}

/// `a` and `b` split 1..=n into two sets of equal sum.
pub open spec fn is_equal_split(n: nat, a: Seq<u32>, b: Seq<u32>) -> bool {
    &&& is_split_of_range(n, a, b)
    &&& seq_sum(a) == seq_sum(b)
}

/// Appending an element adds it to the sum.
pub proof fn lemma_seq_sum_push(s: Seq<u32>, x: u32)
    ensures
        seq_sum(s.push(x)) == seq_sum(s) + x,
{
    assert(s.push(x).drop_last() =~= s);
}

/// Removing the element at `i` takes it out of the sum.
pub proof fn lemma_seq_sum_remove(s: Seq<u32>, i: int)
    requires
        0 <= i < s.len(),
    ensures
        seq_sum(s) == seq_sum(s.remove(i)) + s[i],
    decreases s.len(),
{
    if i == s.len() - 1 {
        assert(s.remove(i) =~= s.drop_last());
    } else {
        let t = s.drop_last();
        lemma_seq_sum_remove(t, i);
        assert(t.remove(i) =~= s.remove(i).drop_last());
        assert(s.remove(i).last() == s.last());
    }
}

/// Twice the triangle number is n(n+1).
pub proof fn lemma_triangle_formula(n: nat)
    ensures
        2 * triangle(n) == n * (n + 1),
    decreases n,
{
    if n > 0 {
        let m: nat = (n - 1) as nat;
        lemma_triangle_formula(m);
        assert(triangle(n) == n + triangle(m));
        assert(n * (n + 1) == m * (m + 1) + 2 * n) by (nonlinear_arith)
            requires
                m + 1 == n,
        ;
    } else {
        assert(n * (n + 1) == 0) by (nonlinear_arith)
            requires
                n == 0,
        ;
    }
}

/// The triangle number is even exactly when n % 4 is 0 or 3.
pub proof fn lemma_triangle_even(n: nat)
    ensures
        triangle(n) % 2 == 0 <==> solvable(n),
    decreases n,
{
    reveal_with_fuel(triangle, 5);
    if n >= 4 {
        lemma_triangle_even((n - 4) as nat);
        assert(triangle(n) == triangle((n - 4) as nat) + 4 * n - 6);
    }
}

/// Each number 1..=n is at least 1 and at most the triangle number.
pub proof fn lemma_triangle_at_least(n: nat)
    ensures
        n <= triangle(n),
{
    if n > 0 {
        assert(triangle(n) == n + triangle((n - 1) as nat));
    }
}

/// Swapping the two sides of a split gives a split.
pub proof fn lemma_split_symmetric(n: nat, a: Seq<u32>, b: Seq<u32>)
    requires
        is_split_of_range(n, a, b),
    ensures
        is_split_of_range(n, b, a),
{
}

/// Taking the largest number out of the side that holds it leaves a split
/// of 1..=n-1.
proof fn lemma_split_remove_top(n: nat, a: Seq<u32>, b: Seq<u32>, i: int)
    requires
        n >= 1,
        is_split_of_range(n, a, b),
        0 <= i < a.len(),
        a[i] == n,
    ensures
        is_split_of_range((n - 1) as nat, a.remove(i), b),
{
    let r = a.remove(i);
    a.remove_ensures(i);
    assert forall|k: int| 0 <= k < r.len() implies 1 <= #[trigger] r[k] <= n - 1 by {
        if k < i {
            assert(r[k] == a[k]);
            assert(a[k] != a[i]);
        } else {
            assert(r[k] == a[k + 1]);
            assert(a[k + 1] != a[i]);
        }
    }
    assert forall|k: int| 0 <= k < b.len() implies 1 <= #[trigger] b[k] <= n - 1 by {
        assert(a[i] != b[k]);
    }
    assert forall|k: int, j: int| 0 <= k < r.len() && 0 <= j < r.len() && k != j implies r[k]
        != r[j] by {
        let k2 = if k < i { k } else { k + 1 };
        let j2 = if j < i { j } else { j + 1 };
        assert(r[k] == a[k2]);
        assert(r[j] == a[j2]);
    }
    assert forall|k: int, j: int| 0 <= k < r.len() && 0 <= j < b.len() implies r[k] != b[j] by {
        let k2 = if k < i { k } else { k + 1 };
        assert(r[k] == a[k2]);
    }
    assert forall|v: u32| 1 <= v <= n - 1 implies #[trigger] r.contains(v) || b.contains(v) by {
        if a.contains(v) {
            let k = choose|k: int| 0 <= k < a.len() && a[k] == v;
            assert(k != i);
            if k < i {
                assert(r[k] == v);
            } else {
                assert(r[k - 1] == v);
            }
        }
    }
}

/// The two sides of any split of 1..=n together sum to 1 + 2 + ... + n.
pub proof fn lemma_split_sum(n: nat, a: Seq<u32>, b: Seq<u32>)
    requires
        n <= u32::MAX,
        is_split_of_range(n, a, b),
    ensures
        seq_sum(a) + seq_sum(b) == triangle(n),
    decreases n,
{
    if n == 0 {
        if a.len() > 0 {
            assert(1 <= a[0] <= 0);
        }
        if b.len() > 0 {
            assert(1 <= b[0] <= 0);
        }
    } else {
        let v: u32 = n as u32;
        assert(a.contains(v) || b.contains(v));
        if a.contains(v) {
            let i = choose|i: int| 0 <= i < a.len() && a[i] == v;
            lemma_split_remove_top(n, a, b, i);
            lemma_split_sum((n - 1) as nat, a.remove(i), b);
            lemma_seq_sum_remove(a, i);
        } else {
            let i = choose|i: int| 0 <= i < b.len() && b[i] == v;
            lemma_split_symmetric(n, a, b);
            lemma_split_remove_top(n, b, a, i);
            lemma_split_symmetric((n - 1) as nat, b.remove(i), a);
            lemma_split_sum((n - 1) as nat, a, b.remove(i));
            lemma_seq_sum_remove(b, i);
        }
    }
}

/// An equal split of 1..=n exists only when n % 4 is 0 or 3: each side
/// then sums to half of 1 + 2 + ... + n.
pub proof fn lemma_equal_split_needs_solvable(n: nat, a: Seq<u32>, b: Seq<u32>)
    requires
        n <= u32::MAX,
        is_equal_split(n, a, b),
    ensures
        solvable(n),
        seq_sum(a) == triangle(n) / 2,
{
    lemma_split_sum(n, a, b);
    lemma_triangle_even(n);
}

} // verus!
