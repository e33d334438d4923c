//! Balancing a phrase over two lines: the split point whose two halves,
//! joined by single spaces, differ least in length.

use vstd::prelude::*;

verus! {

/// Total length of words `a..b`.
pub open spec fn sum_lens(lens: Seq<usize>, a: int, b: int) -> int
    decreases b - a,
{
    if b <= a {
        0
    } else {
        sum_lens(lens, a, b - 1) + lens[b - 1]
    }
}

/// Length of words `a..b` joined by single spaces.
pub open spec fn joined_len(lens: Seq<usize>, a: int, b: int) -> int {
    if b <= a {
        0
    } else {
        sum_lens(lens, a, b) + (b - a - 1)
    }
}

/// How much the two lines differ when the break falls before word `k`.
pub open spec fn split_gap(lens: Seq<usize>, k: int) -> int {
    let l = joined_len(lens, 0, k);
    let r = joined_len(lens, k, lens.len() as int);
    if l >= r {
        l - r
    } else {
        r - l
    }
}

proof fn lemma_sum_nonneg(lens: Seq<usize>, a: int, b: int)
    ensures
        0 <= sum_lens(lens, a, b),
    decreases b - a,
{
    if b > a {
        lemma_sum_nonneg(lens, a, b - 1);
    }
}

proof fn lemma_sum_split(lens: Seq<usize>, a: int, b: int, c: int)
    requires
        a <= b <= c,
    ensures
        sum_lens(lens, a, c) == sum_lens(lens, a, b) + sum_lens(lens, b, c),
        0 <= sum_lens(lens, a, b),
        0 <= sum_lens(lens, b, c),
    decreases c - b,
{
    lemma_sum_nonneg(lens, a, b);
    lemma_sum_nonneg(lens, b, c);
    if c > b {
        lemma_sum_split(lens, a, b, c - 1);
    }
}

/// The break (before word `best`, `1 <= best < lens.len()`) that balances
/// the two lines best; among equally good breaks, the first.
pub fn balanced_split(lens: &[usize]) -> (best: usize)
    requires
        lens@.len() >= 2,
        sum_lens(lens@, 0, lens@.len() as int) + lens@.len() <= usize::MAX,
    ensures
        1 <= best < lens@.len(),
        forall|k: int| 1 <= k < lens@.len() ==> split_gap(lens@, best as int) <= split_gap(lens@, k),
        forall|k: int| 1 <= k < best ==> split_gap(lens@, k) > split_gap(lens@, best as int),
{
    let n = lens.len();
    let ghost total_spec = sum_lens(lens@, 0, n as int);
    let mut total: usize = 0;
    let mut i: usize = 0;
    while i < n
        invariant
            n == lens@.len(),
            i <= n,
            total == sum_lens(lens@, 0, i as int),
            total_spec == sum_lens(lens@, 0, n as int),
            total_spec + n <= usize::MAX,
        decreases n - i,
    {
        proof {
            lemma_sum_split(lens@, 0, i as int + 1, n as int);
        }
        total = total + lens[i];
        i = i + 1;
    }
    let mut best: usize = 1;
    let mut best_diff: usize = usize::MAX;
    let mut left_sum: usize = 0;
    let mut k: usize = 1;
    while k < n
        invariant
            n == lens@.len(),
            n >= 2,
            1 <= k <= n,
            total == sum_lens(lens@, 0, n as int),
            total + n <= usize::MAX,
            left_sum == sum_lens(lens@, 0, k as int - 1),
            1 <= best < n,
            k == 1 ==> best_diff == usize::MAX,
            k > 1 ==> best < k && best_diff == split_gap(lens@, best as int),
            forall|j: int| 1 <= j < k ==> split_gap(lens@, best as int) <= split_gap(lens@, j),
            forall|j: int| 1 <= j < best ==> split_gap(lens@, j) > split_gap(lens@, best as int),
        decreases n - k,
    {
        proof {
            lemma_sum_split(lens@, 0, k as int, n as int);
            lemma_sum_split(lens@, 0, k as int - 1, k as int);
            lemma_sum_split(lens@, k as int, k as int, n as int);
        }
        left_sum = left_sum + lens[k - 1];
        let left = left_sum + (k - 1);
        let right = (total - left_sum) + (n - k - 1);
        assert(left == joined_len(lens@, 0, k as int));
        assert(right == joined_len(lens@, k as int, n as int));
        let d = if left >= right {
            left - right
        } else {
            right - left
        };
        assert(d == split_gap(lens@, k as int));
        if d < best_diff {
            best_diff = d;
            best = k;
        }
        k = k + 1;
    }
    best
}

} // verus!
