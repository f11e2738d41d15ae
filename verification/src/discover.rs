//! Enumerating the baskets a market search chooses between.
//!
//! A basket of `k` names out of `n` candidates is a strictly increasing list of `k` indices
//! below `n`. The search either tries every one of them, in lexicographic order, or falls back
//! to a greedy pass when there are too many; `count_combinations` is what decides which.

use vstd::prelude::*;

use crate::optimize::MIN_OBS;

verus! {

/// How many combinations are worth enumerating before falling back to a greedy search.
pub const EXHAUSTIVE_LIMIT: u64 = 200_000;

/// The binomial coefficient, by Pascal's rule.
pub open spec fn binom(n: nat, k: nat) -> nat
    decreases n,
{
    if k == 0 {
        1
    } else if n == 0 {
        0
    } else {
        binom((n - 1) as nat, (k - 1) as nat) + binom((n - 1) as nat, k)
    }
}

/// A list of indices that is a `k`-subset of `lo..n`, written in increasing order.
pub open spec fn is_subset_in(c: Seq<usize>, lo: nat, n: nat, k: nat) -> bool {
    &&& c.len() == k
    &&& forall|i: int| 0 <= i < c.len() ==> lo <= #[trigger] c[i] < n
    &&& forall|i: int, j: int| 0 <= i < j < c.len() ==> c[i] < c[j]
}

/// Every `k`-subset of `lo..n`, in lexicographic order: first those that take `lo`, then those
/// that do not.
pub open spec fn subsets_from(lo: nat, n: nat, k: nat) -> Seq<Seq<usize>>
    decreases n - lo,
{
    if k == 0 {
        seq![Seq::<usize>::empty()]
    } else if lo + k > n {
        Seq::<Seq<usize>>::empty()
    } else {
        subsets_from(lo + 1, n, (k - 1) as nat).map_values(
            |c: Seq<usize>| seq![lo as usize] + c,
        ) + subsets_from(lo + 1, n, k)
    }
}

/// What `combinations` returns: every `k`-subset of `0..n` in lexicographic order, and nothing
/// at all for a basket of no names or of more names than there are.
pub open spec fn spec_combinations(n: nat, k: nat) -> Seq<Seq<usize>> {
    if k == 0 || k > n {
        Seq::<Seq<usize>>::empty()
    } else {
        subsets_from(0, n, k)
    }
}

pub open spec fn views(v: Seq<Vec<usize>>) -> Seq<Seq<usize>> {
    v.map_values(|x: Vec<usize>| x@)
}

/// `x * y`, saturated at the largest `u64`.
pub open spec fn saturated(x: nat) -> nat {
    if x > u64::MAX {
        u64::MAX as nat
    } else {
        x
    }
}

/// The running value of `count_combinations` after `i` steps of its product: each step
/// multiplies by `n - i`, saturating, and then divides by `i + 1`.
pub open spec fn count_after(n: nat, i: nat) -> nat
    decreases i,
{
    if i == 0 {
        1
    } else {
        saturated(count_after(n, (i - 1) as nat) * (n - (i - 1)) as nat) / i
    }
}

pub open spec fn min_nat(a: nat, b: nat) -> nat {
    if a <= b {
        a
    } else {
        b
    }
}

/// What `count_combinations` returns.
pub open spec fn spec_count_combinations(n: nat, k: nat) -> nat {
    if k > n {
        0
    } else {
        count_after(n, min_nat(k, (n - k) as nat))
    }
}

/// Whether every intermediate product of `count_combinations(n, k)` fits in a `u64`.
pub open spec fn count_fits(n: nat, k: nat) -> bool {
    k <= n ==> forall|j: nat|
        j < min_nat(k, (n - k) as nat) ==> #[trigger] binom(n, j) * (n - j) <= u64::MAX
}

// ---------------------------------------------------------------------------------------------
// Binomial identities.

pub proof fn lemma_binom_zero_above(n: nat, k: nat)
    requires
        k > n,
    ensures
        binom(n, k) == 0,
    decreases n,
{
    if n > 0 {
        lemma_binom_zero_above((n - 1) as nat, (k - 1) as nat);
        lemma_binom_zero_above((n - 1) as nat, k);
    }
}

pub proof fn lemma_binom_n_n(n: nat)
    ensures
        binom(n, n) == 1,
    decreases n,
{
    if n > 0 {
        lemma_binom_n_n((n - 1) as nat);
        lemma_binom_zero_above((n - 1) as nat, n);
    }
}

pub proof fn lemma_binom_one(n: nat)
    ensures
        binom(n, 1) == n,
    decreases n,
{
    if n > 0 {
        lemma_binom_one((n - 1) as nat);
        assert(binom((n - 1) as nat, 0) == 1);
    }
}

/// `k * C(n, k) == n * C(n - 1, k - 1)`.
pub proof fn lemma_binom_absorb(n: nat, k: nat)
    requires
        n >= 1,
        k >= 1,
    ensures
        k * binom(n, k) == n * binom((n - 1) as nat, (k - 1) as nat),
    decreases n,
{
    let a = binom((n - 1) as nat, (k - 1) as nat);
    let b = binom((n - 1) as nat, k);
    assert(binom(n, k) == a + b);
    if k == 1 {
        lemma_binom_one(n);
        assert(a == 1);
        assert(k * binom(n, k) == n * a) by (nonlinear_arith)
            requires
                k == 1,
                a == 1,
                binom(n, k) == n,
        ;
    } else if n == 1 {
        lemma_binom_zero_above(1, k);
        lemma_binom_zero_above(0, (k - 1) as nat);
        assert(k * binom(n, k) == n * a) by (nonlinear_arith)
            requires
                binom(n, k) == 0,
                a == 0,
        ;
    } else {
        // k * b == (n - 1) * C(n - 2, k - 1)
        lemma_binom_absorb((n - 1) as nat, k);
        // (k - 1) * a == (n - 1) * C(n - 2, k - 2)
        lemma_binom_absorb((n - 1) as nat, (k - 1) as nat);
        let c1 = binom((n - 2) as nat, (k - 1) as nat);
        let c2 = binom((n - 2) as nat, (k - 2) as nat);
        assert(a == c2 + c1);
        assert(k * binom(n, k) == n * a) by (nonlinear_arith)
            requires
                binom(n, k) == a + b,
                k * b == (n - 1) * c1,
                (k - 1) * a == (n - 1) * c2,
                a == c2 + c1,
                k >= 2,
                n >= 2,
        ;
    }
}

/// `C(n, i + 1) * (i + 1) == C(n, i) * (n - i)`: each step of the running product is exact.
pub proof fn lemma_binom_step(n: nat, i: nat)
    requires
        i < n,
    ensures
        binom(n, i + 1) * (i + 1) == binom(n, i) * (n - i) as nat,
{
    lemma_binom_absorb(n, i + 1);
    let m = (n - 1) as nat;
    // (n - i) * C(n, i) == n * C(n - 1, i)
    if i == 0 {
        assert(binom(n, 0) == 1);
        assert(binom(m, 0) == 1);
        assert(binom(n, i) * (n - i) as nat == n * binom(m, i)) by (nonlinear_arith)
            requires
                i == 0,
                binom(n, i) == 1,
                binom(m, i) == 1,
        ;
    } else {
        lemma_binom_absorb(n, i);
        assert(binom(n, i) == binom(m, (i - 1) as nat) + binom(m, i));
        assert(binom(n, i) * (n - i) as nat == n * binom(m, i)) by (nonlinear_arith)
            requires
                i * binom(n, i) == n * binom(m, (i - 1) as nat),
                binom(n, i) == binom(m, (i - 1) as nat) + binom(m, i),
                i < n,
        ;
    }
    assert(binom(n, i + 1) * (i + 1) == n * binom(m, i)) by (nonlinear_arith)
        requires
            (i + 1) * binom(n, i + 1) == n * binom(m, i),
    ;
}

/// `C(n, k) == C(n, n - k)`.
pub proof fn lemma_binom_symmetric(n: nat, k: nat)
    requires
        k <= n,
    ensures
        binom(n, k) == binom(n, (n - k) as nat),
    decreases n,
{
    if k == 0 {
        lemma_binom_n_n(n);
    } else if k == n {
        lemma_binom_n_n(n);
    } else {
        lemma_binom_symmetric((n - 1) as nat, (k - 1) as nat);
        lemma_binom_symmetric((n - 1) as nat, k);
        assert((n - 1 - (k - 1)) as nat == (n - k) as nat);
        assert(binom(n, (n - k) as nat) == binom((n - 1) as nat, (n - k - 1) as nat) + binom(
            (n - 1) as nat,
            (n - k) as nat,
        ));
    }
}

/// Without saturation the running product is the binomial coefficient itself.
pub proof fn lemma_count_after_exact(n: nat, i: nat)
    requires
        i <= n,
        forall|j: nat| j < i ==> #[trigger] binom(n, j) * (n - j) <= u64::MAX,
    ensures
        count_after(n, i) == binom(n, i),
    decreases i,
{
    if i > 0 {
        let j = (i - 1) as nat;
        lemma_count_after_exact(n, j);
        assert(binom(n, j) * (n - j) <= u64::MAX);
        lemma_binom_step(n, j);
        let p = binom(n, j) * (n - j) as nat;
        assert(saturated(p) == p);
        assert(p == binom(n, i) * i);
        assert(p / i == binom(n, i)) by (nonlinear_arith)
            requires
                p == binom(n, i) * i,
                i > 0,
        ;
    }
}

/// Without saturation, `count_combinations(n, k)` is `C(n, k)`.
pub proof fn lemma_count_is_binomial(n: nat, k: nat)
    requires
        count_fits(n, k),
    ensures
        spec_count_combinations(n, k) == binom(n, k),
{
    if k > n {
        lemma_binom_zero_above(n, k);
    } else {
        let m = min_nat(k, (n - k) as nat);
        lemma_count_after_exact(n, m);
        lemma_binom_symmetric(n, k);
    }
}

// ---------------------------------------------------------------------------------------------
// The subsets, as a sequence.

pub proof fn lemma_subsets_len(lo: nat, n: nat, k: nat)
    requires
        lo <= n,
    ensures
        subsets_from(lo, n, k).len() == binom((n - lo) as nat, k),
    decreases n - lo,
{
    if k == 0 {
    } else if lo + k > n {
        lemma_binom_zero_above((n - lo) as nat, k);
    } else {
        lemma_subsets_len(lo + 1, n, (k - 1) as nat);
        lemma_subsets_len(lo + 1, n, k);
        assert((n - (lo + 1)) as nat == (n - lo - 1) as nat);
    }
}

/// Every listed subset is a strictly increasing `k`-subset of `lo..n`.
pub proof fn lemma_subsets_sound(lo: nat, n: nat, k: nat, x: int)
    requires
        0 <= x < subsets_from(lo, n, k).len(),
        n <= usize::MAX,
    ensures
        is_subset_in(subsets_from(lo, n, k)[x], lo, n, k),
    decreases n - lo,
{
    if k == 0 {
    } else if lo + k > n {
    } else {
        let with = subsets_from(lo + 1, n, (k - 1) as nat);
        let without = subsets_from(lo + 1, n, k);
        let mapped = with.map_values(|c: Seq<usize>| seq![lo as usize] + c);
        assert(subsets_from(lo, n, k) == mapped + without);
        if x < with.len() {
            lemma_subsets_sound(lo + 1, n, (k - 1) as nat, x);
            let c = with[x];
            let d = seq![lo as usize] + c;
            assert(mapped[x] == d);
            assert forall|i: int| 0 <= i < d.len() implies lo <= #[trigger] d[i] < n by {
                if i > 0 {
                    assert(d[i] == c[i - 1]);
                }
            }
            assert forall|i: int, j: int| 0 <= i < j < d.len() implies d[i] < d[j] by {
                if i > 0 {
                    assert(d[i] == c[i - 1]);
                }
                assert(d[j] == c[j - 1]);
            }
        } else {
            lemma_subsets_sound(lo + 1, n, k, x - with.len());
        }
    }
}

/// A strictly increasing list of values at least `lo` has `c[i] >= lo + i`.
proof fn lemma_increasing_spread(c: Seq<usize>, lo: nat, n: nat, k: nat, i: int)
    requires
        is_subset_in(c, lo, n, k),
        0 <= i < c.len(),
    ensures
        c[i] >= lo + i,
    decreases i,
{
    if i > 0 {
        lemma_increasing_spread(c, lo, n, k, i - 1);
    }
}

/// Every strictly increasing `k`-subset of `lo..n` is listed.
pub proof fn lemma_subsets_complete(lo: nat, n: nat, k: nat, c: Seq<usize>)
    requires
        is_subset_in(c, lo, n, k),
        n <= usize::MAX,
    ensures
        subsets_from(lo, n, k).contains(c),
    decreases n - lo,
{
    if k == 0 {
        assert(c =~= Seq::<usize>::empty());
        assert(subsets_from(lo, n, k)[0] == c);
    } else {
        lemma_increasing_spread(c, lo, n, k, k - 1);
        assert(lo + k <= n);
        let with = subsets_from(lo + 1, n, (k - 1) as nat);
        let without = subsets_from(lo + 1, n, k);
        let mapped = with.map_values(|c: Seq<usize>| seq![lo as usize] + c);
        assert(subsets_from(lo, n, k) == mapped + without);
        if c[0] == lo {
            let t = c.drop_first();
            assert forall|i: int| 0 <= i < t.len() implies lo + 1 <= #[trigger] t[i] < n by {
                assert(t[i] == c[i + 1]);
                assert(c[0] < c[i + 1]);
            }
            assert forall|i: int, j: int| 0 <= i < j < t.len() implies t[i] < t[j] by {
                assert(t[i] == c[i + 1]);
                assert(t[j] == c[j + 1]);
            }
            lemma_subsets_complete(lo + 1, n, (k - 1) as nat, t);
            let x = choose|x: int| 0 <= x < with.len() && with[x] == t;
            assert(seq![lo as usize] + t =~= c);
            assert(mapped[x] == c);
            assert((mapped + without)[x] == c);
        } else {
            assert forall|i: int| 0 <= i < c.len() implies lo + 1 <= #[trigger] c[i] < n by {
                if i > 0 {
                    assert(c[0] < c[i]);
                }
            }
            lemma_subsets_complete(lo + 1, n, k, c);
            let x = choose|x: int| 0 <= x < without.len() && without[x] == c;
            assert((mapped + without)[mapped.len() + x] == c);
        }
    }
}

/// No subset is listed twice.
pub proof fn lemma_subsets_distinct(lo: nat, n: nat, k: nat, x: int, y: int)
    requires
        0 <= x < y < subsets_from(lo, n, k).len(),
        n <= usize::MAX,
    ensures
        subsets_from(lo, n, k)[x] != subsets_from(lo, n, k)[y],
    decreases n - lo,
{
    if k == 0 {
    } else if lo + k > n {
    } else {
        let with = subsets_from(lo + 1, n, (k - 1) as nat);
        let without = subsets_from(lo + 1, n, k);
        let mapped = with.map_values(|c: Seq<usize>| seq![lo as usize] + c);
        let all = subsets_from(lo, n, k);
        assert(all == mapped + without);
        if y < with.len() {
            lemma_subsets_distinct(lo + 1, n, (k - 1) as nat, x, y);
            if mapped[x] == mapped[y] {
                assert(mapped[x].drop_first() =~= with[x]);
                assert(mapped[y].drop_first() =~= with[y]);
            }
        } else if x >= with.len() {
            lemma_subsets_distinct(lo + 1, n, k, x - with.len(), y - with.len());
        } else {
            lemma_subsets_sound(lo + 1, n, k, y - with.len());
            let d = without[y - with.len()];
            assert(all[y] == d);
            assert(d[0] >= lo + 1);
            assert(all[x] == seq![lo as usize] + with[x]);
            assert(all[x][0] == lo);
        }
    }
}

// ---------------------------------------------------------------------------------------------
// Laws.

/// Every basket `combinations(n, k)` lists is a strictly increasing `k`-subset of `0..n`.
pub proof fn law_combinations_are_subsets(n: usize, k: usize, x: int)
    requires
        0 <= x < spec_combinations(n as nat, k as nat).len(),
    ensures
        is_subset_in(spec_combinations(n as nat, k as nat)[x], 0, n as nat, k as nat),
{
    lemma_subsets_sound(0, n as nat, k as nat, x);
}

/// Every strictly increasing `k`-subset of `0..n`, for `1 <= k <= n`, is listed by
/// `combinations(n, k)`.
pub proof fn law_combinations_are_complete(n: usize, k: usize, c: Seq<usize>)
    requires
        1 <= k <= n,
        is_subset_in(c, 0, n as nat, k as nat),
    ensures
        spec_combinations(n as nat, k as nat).contains(c),
{
    lemma_subsets_complete(0, n as nat, k as nat, c);
}

/// `combinations(n, k)` lists no basket twice.
pub proof fn law_combinations_are_distinct(n: usize, k: usize, x: int, y: int)
    requires
        0 <= x < y < spec_combinations(n as nat, k as nat).len(),
    ensures
        spec_combinations(n as nat, k as nat)[x] != spec_combinations(n as nat, k as nat)[y],
{
    lemma_subsets_distinct(0, n as nat, k as nat, x, y);
}

/// Whenever `count_combinations` does not saturate, it counts exactly the baskets that
/// `combinations` lists, for every `k` from 1 to `n`.
pub proof fn law_count_matches_enumeration(n: usize, k: usize)
    requires
        1 <= k <= n,
        count_fits(n as nat, k as nat),
    ensures
        spec_combinations(n as nat, k as nat).len() == spec_count_combinations(n as nat, k as nat),
{
    lemma_subsets_len(0, n as nat, k as nat);
    lemma_count_is_binomial(n as nat, k as nat);
}

/// Whether `a` comes before `b` in lexicographic order: at the first place they differ, `a` has
/// the smaller index.
pub open spec fn lex_less(a: Seq<usize>, b: Seq<usize>) -> bool
    decreases a.len(),
{
    if a.len() == 0 || b.len() == 0 {
        false
    } else if a[0] < b[0] {
        true
    } else if a[0] == b[0] {
        lex_less(a.drop_first(), b.drop_first())
    } else {
        false
    }
}

/// The `k` consecutive indices from `lo`.
pub open spec fn run_from(lo: nat, k: nat) -> Seq<usize> {
    Seq::new(k, |i: int| (lo + i) as usize)
}

proof fn lemma_subsets_ordered(lo: nat, n: nat, k: nat, x: int, y: int)
    requires
        0 <= x < y < subsets_from(lo, n, k).len(),
        n <= usize::MAX,
    ensures
        lex_less(subsets_from(lo, n, k)[x], subsets_from(lo, n, k)[y]),
    decreases n - lo,
{
    if k == 0 {
    } else if lo + k > n {
    } else {
        let with = subsets_from(lo + 1, n, (k - 1) as nat);
        let without = subsets_from(lo + 1, n, k);
        let mapped = with.map_values(|c: Seq<usize>| seq![lo as usize] + c);
        let all = subsets_from(lo, n, k);
        assert(all == mapped + without);
        if y < with.len() {
            lemma_subsets_ordered(lo + 1, n, (k - 1) as nat, x, y);
            assert(all[x] == seq![lo as usize] + with[x]);
            assert(all[y] == seq![lo as usize] + with[y]);
            assert(all[x].drop_first() =~= with[x]);
            assert(all[y].drop_first() =~= with[y]);
        } else if x >= with.len() {
            lemma_subsets_ordered(lo + 1, n, k, x - with.len(), y - with.len());
        } else {
            lemma_subsets_sound(lo + 1, n, k, y - with.len());
            let d = without[y - with.len()];
            assert(all[y] == d);
            assert(d[0] >= lo + 1);
            assert(all[x] == seq![lo as usize] + with[x]);
            assert(all[x][0] == lo);
        }
    }
}

proof fn lemma_subsets_ends(lo: nat, n: nat, k: nat)
    requires
        lo + k <= n,
        n <= usize::MAX,
    ensures
        subsets_from(lo, n, k).len() > 0,
        subsets_from(lo, n, k)[0] == run_from(lo, k),
        subsets_from(lo, n, k).last() == run_from((n - k) as nat, k),
    decreases n - lo,
{
    if k == 0 {
        assert(subsets_from(lo, n, k)[0] =~= run_from(lo, k));
        assert(subsets_from(lo, n, k).last() =~= run_from((n - k) as nat, k));
    } else {
        lemma_subsets_ends(lo + 1, n, (k - 1) as nat);
        let with = subsets_from(lo + 1, n, (k - 1) as nat);
        let without = subsets_from(lo + 1, n, k);
        let mapped = with.map_values(|c: Seq<usize>| seq![lo as usize] + c);
        let all = subsets_from(lo, n, k);
        assert(all == mapped + without);
        assert(all[0] == seq![lo as usize] + with[0]);
        assert(all[0] =~= run_from(lo, k));
        if lo + k == n {
            assert(without.len() == 0);
            assert(all.last() == mapped[mapped.len() - 1]);
            assert(mapped[mapped.len() - 1] == seq![lo as usize] + with.last());
            assert(all.last() =~= run_from((n - k) as nat, k));
        } else {
            lemma_subsets_ends(lo + 1, n, k);
            assert(all.last() == without.last());
        }
    }
}

/// `combinations(n, k)` lists its baskets in lexicographic order, from `0..k` first to
/// `n - k..n` last, so each comes strictly before the next and the search always meets them in
/// the same order.
pub proof fn law_combinations_are_in_lexicographic_order(n: usize, k: usize)
    ensures
        forall|x: int, y: int|
            0 <= x < y < spec_combinations(n as nat, k as nat).len() ==> lex_less(
                #[trigger] spec_combinations(n as nat, k as nat)[x],
                #[trigger] spec_combinations(n as nat, k as nat)[y],
            ),
        1 <= k <= n ==> spec_combinations(n as nat, k as nat).len() > 0
            && spec_combinations(n as nat, k as nat)[0] == run_from(0, k as nat)
            && spec_combinations(n as nat, k as nat).last() == run_from((n - k) as nat, k as nat),
{
    assert forall|x: int, y: int|
        0 <= x < y < spec_combinations(n as nat, k as nat).len() implies lex_less(
        #[trigger] spec_combinations(n as nat, k as nat)[x],
        #[trigger] spec_combinations(n as nat, k as nat)[y],
    ) by {
        lemma_subsets_ordered(0, n as nat, k as nat, x, y);
    }
    if 1 <= k <= n {
        lemma_subsets_ends(0, n as nat, k as nat);
    }
}

// ---------------------------------------------------------------------------------------------
// Executable.

fn subsets_exec(lo: usize, n: usize, k: usize) -> (r: Vec<Vec<usize>>)
    requires
        lo <= n,
    ensures
        views(r@) == subsets_from(lo as nat, n as nat, k as nat),
    decreases n - lo,
{
    if k == 0 {
        let mut r: Vec<Vec<usize>> = Vec::new();
        r.push(Vec::new());
        assert(views(r@) =~= subsets_from(lo as nat, n as nat, k as nat));
        return r;
    }
    if k > n - lo {
        let r: Vec<Vec<usize>> = Vec::new();
        assert(views(r@) =~= subsets_from(lo as nat, n as nat, k as nat));
        return r;
    }
    let ghost with = subsets_from(lo as nat + 1, n as nat, (k - 1) as nat);
    let ghost without = subsets_from(lo as nat + 1, n as nat, k as nat);
    let tails = subsets_exec(lo + 1, n, k - 1);
    let mut r: Vec<Vec<usize>> = Vec::new();
    let mut i: usize = 0;
    while i < tails.len()
        invariant
            i <= tails@.len(),
            views(tails@) == with,
            views(r@) =~= with.take(i as int).map_values(|c: Seq<usize>| seq![lo as usize] + c),
        decreases tails@.len() - i,
    {
        let mut v: Vec<usize> = Vec::new();
        v.push(lo);
        let t = &tails[i];
        let mut j: usize = 0;
        while j < t.len()
            invariant
                j <= t@.len(),
                v@ =~= seq![lo] + t@.take(j as int),
            decreases t@.len() - j,
        {
            v.push(t[j]);
            j += 1;
        }
        assert(t@.take(j as int) =~= t@);
        assert(tails@[i as int]@ == with[i as int]);
        let ghost before = r@;
        r.push(v);
        assert(views(r@) =~= views(before).push(seq![lo as usize] + with[i as int]));
        assert(with.take(i as int + 1) =~= with.take(i as int).push(with[i as int]));
        i += 1;
    }
    assert(with.take(i as int) =~= with);
    let mut rest = subsets_exec(lo + 1, n, k);
    let ghost before = r@;
    r.append(&mut rest);
    assert(views(r@) =~= views(before) + without);
    r
}

/// Every `k`-subset of `0..n`, as index vectors, in lexicographic order.
pub fn combinations(n: usize, k: usize) -> (r: Vec<Vec<usize>>)
    ensures
        views(r@) == spec_combinations(n as nat, k as nat),
{
    if k == 0 || k > n {
        let r: Vec<Vec<usize>> = Vec::new();
        assert(views(r@) =~= spec_combinations(n as nat, k as nat));
        return r;
    }
    subsets_exec(0, n, k)
}

/// How many `k`-subsets of `n` candidates there are, saturating rather than overflowing.
pub fn count_combinations(n: usize, k: usize) -> (r: u64)
    ensures
        r == spec_count_combinations(n as nat, k as nat),
        count_fits(n as nat, k as nat) ==> r == binom(n as nat, k as nat),
{
    proof {
        lemma_count_is_binomial_if_fits(n as nat, k as nat);
    }
    if k > n {
        return 0;
    }
    let mut out: u64 = 1;
    let m: usize = if k <= n - k {
        k
    } else {
        n - k
    };
    let mut i: usize = 0;
    while i < m
        invariant
            i <= m,
            m == min_nat(k as nat, (n - k) as nat),
            k <= n,
            n <= u64::MAX,
            out == count_after(n as nat, i as nat),
        decreases m - i,
    {
        let factor: u64 = (n - i) as u64;
        let p: u64 = match out.checked_mul(factor) {
            Some(p) => p,
            None => u64::MAX,
        };
        assert(p == saturated((out * factor) as nat));
        out = p / (i as u64 + 1);
        i += 1;
    }
    out
}

proof fn lemma_count_is_binomial_if_fits(n: nat, k: nat)
    ensures
        count_fits(n, k) ==> spec_count_combinations(n, k) == binom(n, k),
{
    if count_fits(n, k) {
        lemma_count_is_binomial(n, k);
    }
}

// ---------------------------------------------------------------------------------------------
// How a search is split and which search it is.

/// Trading days between the training window and the test window, so the test window cannot see
/// the last training prices through an overnight gap.
pub const GAP: usize = 5;

/// Roughly a quarter: how often a basket is rebalanced back to its weights.
pub const REBALANCE_DAYS: usize = 63;

/// Where a search over `len` shared days of `width` symbols for a basket of `n` splits: the
/// training window is the first seven tenths, the test window starts `GAP` days after it and runs
/// to the end. `None` when there is nothing to search: a basket of none, fewer symbols than the
/// basket, or under `MIN_OBS` training days, or no test days left.
pub open spec fn split_of(len: nat, width: nat, n: nat) -> Option<(nat, nat)> {
    let split = len * 7 / 10;
    if width < n || n == 0 || split <= MIN_OBS || split + GAP >= len {
        None
    } else {
        Some((split, (split + GAP) as nat))
    }
}

pub fn search_split(len: usize, width: usize, n: usize) -> (r: Option<(usize, usize)>)
    requires
        len * 7 <= usize::MAX,
    ensures
        match split_of(len as nat, width as nat, n as nat) {
            Some((a, b)) => r == Some((a as usize, b as usize)),
            None => r is None,
        },
{
    let split = len * 7 / 10;
    if width < n || n == 0 || split <= MIN_OBS || split + GAP >= len {
        None
    } else {
        Some((split, split + GAP))
    }
}

/// Whether a walk rebalances at the end of row `t` (counting from 0): every `every` rows, never
/// on the first, which is the formation.
pub open spec fn rebalances_at(t: nat, every: nat) -> bool {
    t > 0 && (t + 1) % every == 0
}

pub fn rebalances_on(t: usize, every: usize) -> (r: bool)
    requires
        every > 0,
        t < usize::MAX,
    ensures
        r == rebalances_at(t as nat, every as nat),
{
    t > 0 && (t + 1) % every == 0
}

/// Whether every basket is tried, rather than grown greedily one candidate at a time.
pub fn exhaustive(combos: u64) -> (r: bool)
    ensures
        r == (combos > 0 && combos <= EXHAUSTIVE_LIMIT),
{
    combos > 0 && combos <= EXHAUSTIVE_LIMIT
}

/// The training window ends before the test window starts, both hold days, and the test window
/// is at least the gap away: selection never reads the test rows.
pub proof fn law_the_test_window_is_never_trained_on(len: nat, width: nat, n: nat)
    requires
        split_of(len, width, n) is Some,
    ensures
        ({
            let (train_end, test_start) = split_of(len, width, n).unwrap();
            &&& MIN_OBS < train_end
            &&& train_end + GAP == test_start
            &&& test_start < len
        }),
{
}

} // verus!
