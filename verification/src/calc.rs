//! Whether a holding can be valued at all. An unknown ticker, a missing rate for the price and a
//! missing rate for the cost all land in the same place: the holding is unpriced, shown as such,
//! and left out of every total, rather than valued at zero or at a rate of one. The valuation
//! itself is floating-point arithmetic and is the caller's; which holdings make up each asset
//! class, and the order the classes are listed in, are decided here.

use vstd::prelude::*;

use crate::import::texts;
use crate::quotes::{fx_pair, fx_symbol, Cache, CacheView};
use crate::text::{
    chars_eq, chars_of, lemma_text_less_irreflexive, lemma_text_less_total,
    lemma_text_less_transitive, text_before, text_less,
};

verus! {

/// Whether an amount in `from` can be stated in `to`: the same currency needs no rate, another
/// needs its pair in the cache.
pub open spec fn rate_known(cache: CacheView, from: Seq<char>, to: Seq<char>) -> bool {
    match fx_pair(from, to) {
        None => true,
        Some(p) => cache.dom().contains(p),
    }
}

/// Whether a holding is priced: its ticker is quoted, and both its price currency and its cost
/// currency convert to the base currency.
pub open spec fn priced_in(
    cache: CacheView,
    ticker: Seq<char>,
    cost_currency: Seq<char>,
    base: Seq<char>,
) -> bool {
    &&& cache.dom().contains(ticker)
    &&& rate_known(cache, cache[ticker].0, base)
    &&& rate_known(cache, cost_currency, base)
}

pub fn rate_available(cache: &Cache, from: &str, to: &str) -> (r: bool)
    requires
        cache.wf(),
    ensures
        r == rate_known(cache@, from@, to@),
{
    match fx_symbol(from, to) {
        None => true,
        Some(pair) => cache.get(pair.as_str()).is_some(),
    }
}

/// Whether a holding of `ticker`, paid for in `cost_currency`, can be valued in `base`.
pub fn priced(cache: &Cache, ticker: &str, cost_currency: &str, base: &str) -> (r: bool)
    requires
        cache.wf(),
    ensures
        r == priced_in(cache@, ticker@, cost_currency@, base@),
{
    match cache.get(ticker) {
        None => false,
        Some(q) => rate_available(cache, q.currency.as_str(), base) && rate_available(
            cache,
            cost_currency,
            base,
        ),
    }
}

// ---------------------------------------------------------------------------------------------
// Asset classes.

/// The positions of the priced holdings of class `c` among the first `n`, in order.
pub open spec fn class_members(classes: Seq<Seq<char>>, priced: Seq<bool>, c: Seq<char>, n: nat) -> Seq<
    usize,
>
    decreases n,
{
    if n == 0 {
        Seq::empty()
    } else {
        let rest = class_members(classes, priced, c, (n - 1) as nat);
        if priced[n - 1] && classes[n - 1] == c {
            rest.push((n - 1) as usize)
        } else {
            rest
        }
    }
}

/// Whether some priced holding among the first `n` is of class `c`.
pub open spec fn has_priced(classes: Seq<Seq<char>>, priced: Seq<bool>, c: Seq<char>, n: nat) -> bool {
    exists|j: int| 0 <= j < n && #[trigger] priced[j] && classes[j] == c
}

/// Whether the names are in strictly ascending order, character by character.
pub open spec fn ascending(keys: Seq<Seq<char>>) -> bool {
    forall|i: int, j: int|
        0 <= i < j < keys.len() ==> text_less(#[trigger] keys[i], #[trigger] keys[j])
}

pub open spec fn class_names(g: Seq<(Seq<char>, Seq<usize>)>) -> Seq<Seq<char>> {
    g.map_values(|e: (Seq<char>, Seq<usize>)| e.0)
}

pub open spec fn group_views(g: Seq<(String, Vec<usize>)>) -> Seq<(Seq<char>, Seq<usize>)> {
    g.map_values(|e: (String, Vec<usize>)| (e.0@, e.1@))
}

/// The asset classes of the first `n` holdings: one entry for every class that has a priced
/// holding, in ascending order of name, each with the positions of its priced holdings in
/// order. An unpriced holding counts towards no class.
pub open spec fn classes_are(
    g: Seq<(Seq<char>, Seq<usize>)>,
    classes: Seq<Seq<char>>,
    priced: Seq<bool>,
    n: nat,
) -> bool {
    &&& ascending(class_names(g))
    &&& forall|c: Seq<char>|
        #![trigger has_priced(classes, priced, c, n)]
        #![trigger class_names(g).contains(c)]
        has_priced(classes, priced, c, n) <==> class_names(g).contains(c)
    &&& forall|k: int|
        0 <= k < g.len() ==> #[trigger] g[k].1 == class_members(classes, priced, g[k].0, n)
}

proof fn lemma_no_members(classes: Seq<Seq<char>>, priced: Seq<bool>, c: Seq<char>, n: nat)
    requires
        n <= classes.len(),
        n <= priced.len(),
        !has_priced(classes, priced, c, n),
    ensures
        class_members(classes, priced, c, n) == Seq::<usize>::empty(),
    decreases n,
{
    if n > 0 {
        assert(!(priced[n - 1] && classes[n - 1] == c));
        assert(!has_priced(classes, priced, c, (n - 1) as nat)) by {
            if has_priced(classes, priced, c, (n - 1) as nat) {
                let j = choose|j: int| 0 <= j < n - 1 && #[trigger] priced[j] && classes[j] == c;
                assert(0 <= j < n && priced[j] && classes[j] == c);
            }
        }
        lemma_no_members(classes, priced, c, (n - 1) as nat);
    }
}

/// Where a class goes among names in ascending order: the first position whose name is not
/// before it. Returns whether the name there is the class itself.
fn class_slot(out: &Vec<(String, Vec<usize>)>, c: &Vec<char>) -> (r: (usize, bool))
    requires
        ascending(class_names(group_views(out@))),
    ensures
        r.0 <= out@.len(),
        forall|k: int| 0 <= k < r.0 ==> text_less(#[trigger] out@[k].0@, c@),
        r.1 <==> (r.0 < out@.len() && out@[r.0 as int].0@ == c@),
        !r.1 ==> forall|k: int| r.0 <= k < out@.len() ==> text_less(c@, #[trigger] out@[k].0@),
{
    let ghost names = class_names(group_views(out@));
    let mut k: usize = 0;
    while k < out.len()
        invariant
            k <= out@.len(),
            names == class_names(group_views(out@)),
            ascending(names),
            forall|j: int| 0 <= j < k ==> text_less(#[trigger] out@[j].0@, c@),
        ensures
            k <= out@.len(),
            forall|j: int| 0 <= j < k ==> text_less(#[trigger] out@[j].0@, c@),
            k < out@.len() ==> !text_less(out@[k as int].0@, c@),
        decreases out@.len() - k,
    {
        assert(names[k as int] == out@[k as int].0@);
        if !text_before(&chars_of(out[k].0.as_str()), c.as_slice()) {
            break;
        }
        k += 1;
    }
    let found = k < out.len() && chars_eq(&chars_of(out[k].0.as_str()), c.as_slice());
    proof {
        if !found && k < out@.len() {
            assert(names[k as int] == out@[k as int].0@);
            lemma_text_less_total(c@, out@[k as int].0@);
            assert forall|j: int| k <= j < out@.len() implies text_less(c@, #[trigger] out@[j].0@) by {
                assert(names[j] == out@[j].0@);
                if j > k {
                    assert(text_less(names[k as int], names[j]));
                    lemma_text_less_transitive(c@, out@[k as int].0@, out@[j].0@);
                }
            }
        }
    }
    (k, found)
}

/// The asset classes of a portfolio's holdings, given each holding's class and whether it is
/// priced: every class that has a priced holding, once, in ascending order of name, with the
/// positions of its priced holdings in order. The caller sums their values.
pub fn class_groups(classes: &[String], priced: &[bool]) -> (r: Vec<(String, Vec<usize>)>)
    requires
        classes@.len() == priced@.len(),
    ensures
        classes_are(group_views(r@), texts(classes@), priced@, classes@.len() as nat),
{
    let ghost cl = texts(classes@);
    let mut out: Vec<(String, Vec<usize>)> = Vec::new();
    let mut i: usize = 0;
    proof {
        assert(group_views(out@) =~= Seq::<(Seq<char>, Seq<usize>)>::empty());
        assert(class_names(group_views(out@)) =~= Seq::<Seq<char>>::empty());
    }
    while i < classes.len()
        invariant
            i <= classes@.len(),
            classes@.len() == priced@.len(),
            cl == texts(classes@),
            classes_are(group_views(out@), cl, priced@, i as nat),
        decreases classes@.len() - i,
    {
        let ghost g0 = group_views(out@);
        let ghost n0 = class_names(g0);
        assert(cl[i as int] == classes@[i as int]@);
        if priced[i] {
            let c = chars_of(classes[i].as_str());
            let (k, found) = class_slot(&out, &c);
            if found {
                let (name, mut members) = out.remove(k);
                members.push(i);
                out.insert(k, (name, members));
                proof {
                    let g1 = group_views(out@);
                    assert(g1 =~= g0.update(k as int, (g0[k as int].0, g0[k as int].1.push(i))));
                    assert(class_names(g1) =~= n0);
                    assert forall|j: int| 0 <= j < g1.len() implies #[trigger] g1[j].1
                        == class_members(cl, priced@, g1[j].0, (i + 1) as nat) by {
                        if j != k {
                            assert(n0[j] == g0[j].0 && n0[k as int] == g0[k as int].0);
                            if j < k {
                                assert(text_less(n0[j], n0[k as int]));
                            } else {
                                assert(text_less(n0[k as int], n0[j]));
                            }
                            lemma_text_less_irreflexive(n0[j]);
                        }
                    }
                    assert forall|c2: Seq<char>|
                        has_priced(cl, priced@, c2, (i + 1) as nat) <==> #[trigger] class_names(
                            g1,
                        ).contains(c2) by {
                        if has_priced(cl, priced@, c2, (i + 1) as nat) {
                            let j = choose|j: int|
                                0 <= j < i + 1 && #[trigger] priced@[j] && cl[j] == c2;
                            if j < i {
                                assert(has_priced(cl, priced@, c2, i as nat));
                            } else {
                                assert(n0[k as int] == c2);
                            }
                        }
                        if class_names(g1).contains(c2) {
                            assert(has_priced(cl, priced@, c2, i as nat));
                            let j = choose|j: int| 0 <= j < i && #[trigger] priced@[j] && cl[j] == c2;
                            assert(0 <= j < i + 1 && priced@[j] && cl[j] == c2);
                        }
                    }
                }
            } else {
                let ghost cv = c@;
                proof {
                    assert forall|j: int| 0 <= j < k implies text_less(#[trigger] g0[j].0, cv) by {
                        assert(g0[j].0 == out@[j].0@);
                    }
                    assert forall|j: int| k <= j < g0.len() implies text_less(
                        cv,
                        #[trigger] g0[j].0,
                    ) by {
                        assert(g0[j].0 == out@[j].0@);
                    }
                }
                let mut first: Vec<usize> = Vec::new();
                first.push(i);
                assert(first@ =~= seq![i]);
                out.insert(k, (classes[i].clone(), first));
                proof {
                    let g1 = group_views(out@);
                    assert(!n0.contains(cv)) by {
                        if n0.contains(cv) {
                            let j = choose|j: int| 0 <= j < n0.len() && n0[j] == cv;
                            if j < k {
                                assert(text_less(g0[j].0, cv));
                            } else {
                                assert(text_less(cv, g0[j].0));
                            }
                            lemma_text_less_irreflexive(cv);
                        }
                    }
                    assert(!has_priced(cl, priced@, cv, i as nat));
                    lemma_no_members(cl, priced@, cv, i as nat);
                    assert(g1 =~= g0.insert(k as int, (cv, seq![i])));
                    assert(class_names(g1) =~= n0.insert(k as int, cv));
                    assert forall|a: int, b: int|
                        0 <= a < b < class_names(g1).len() implies text_less(
                        #[trigger] class_names(g1)[a],
                        #[trigger] class_names(g1)[b],
                    ) by {
                        let n1 = class_names(g1);
                        if b < k {
                            assert(n1[a] == n0[a] && n1[b] == n0[b]);
                        } else if b == k {
                            assert(n1[a] == n0[a] && n1[b] == cv);
                            assert(text_less(g0[a].0, cv));
                        } else if a == k {
                            assert(n1[a] == cv && n1[b] == n0[b - 1]);
                            assert(text_less(cv, g0[b - 1].0));
                        } else if a < k {
                            assert(n1[a] == n0[a] && n1[b] == n0[b - 1]);
                        } else {
                            assert(n1[a] == n0[a - 1] && n1[b] == n0[b - 1]);
                        }
                    }
                    assert forall|j: int| 0 <= j < g1.len() implies #[trigger] g1[j].1
                        == class_members(cl, priced@, g1[j].0, (i + 1) as nat) by {
                        if j < k {
                            assert(g1[j] == g0[j]);
                            assert(n0[j] == g0[j].0);
                            assert(g0[j].0 != cv);
                        } else if j > k {
                            assert(g1[j] == g0[j - 1]);
                            assert(n0[j - 1] == g0[j - 1].0);
                            assert(g0[j - 1].0 != cv);
                        } else {
                            assert(class_members(cl, priced@, cv, (i + 1) as nat) =~= seq![i]);
                        }
                    }
                    assert forall|c2: Seq<char>|
                        has_priced(cl, priced@, c2, (i + 1) as nat) <==> #[trigger] class_names(
                            g1,
                        ).contains(c2) by {
                        let n1 = class_names(g1);
                        if has_priced(cl, priced@, c2, (i + 1) as nat) {
                            let j = choose|j: int|
                                0 <= j < i + 1 && #[trigger] priced@[j] && cl[j] == c2;
                            if j < i {
                                assert(has_priced(cl, priced@, c2, i as nat));
                                let m = choose|m: int| 0 <= m < n0.len() && n0[m] == c2;
                                if m < k {
                                    assert(n1[m] == c2);
                                } else {
                                    assert(n1[m + 1] == c2);
                                }
                            } else {
                                assert(n1[k as int] == c2);
                            }
                        }
                        if n1.contains(c2) {
                            let m = choose|m: int| 0 <= m < n1.len() && n1[m] == c2;
                            if m == k {
                                assert(0 <= i < i + 1 && priced@[i as int] && cl[i as int] == c2);
                            } else {
                                if m < k {
                                    assert(n0[m] == c2);
                                } else {
                                    assert(n0[m - 1] == c2);
                                }
                                assert(has_priced(cl, priced@, c2, i as nat));
                                let j = choose|j: int|
                                    0 <= j < i && #[trigger] priced@[j] && cl[j] == c2;
                                assert(0 <= j < i + 1 && priced@[j] && cl[j] == c2);
                            }
                        }
                    }
                }
            }
        } else {
            proof {
                assert forall|j: int| 0 <= j < g0.len() implies #[trigger] g0[j].1
                    == class_members(cl, priced@, g0[j].0, (i + 1) as nat) by {}
                assert forall|c2: Seq<char>|
                    has_priced(cl, priced@, c2, (i + 1) as nat) <==> #[trigger] n0.contains(c2) by {
                    if has_priced(cl, priced@, c2, (i + 1) as nat) {
                        let j = choose|j: int| 0 <= j < i + 1 && #[trigger] priced@[j] && cl[j] == c2;
                        assert(has_priced(cl, priced@, c2, i as nat));
                    }
                    if n0.contains(c2) {
                        let j = choose|j: int| 0 <= j < i && #[trigger] priced@[j] && cl[j] == c2;
                        assert(0 <= j < i + 1 && priced@[j] && cl[j] == c2);
                    }
                }
            }
        }
        i += 1;
    }
    out
}

proof fn lemma_members_are(classes: Seq<Seq<char>>, priced: Seq<bool>, c: Seq<char>, n: nat, i: int)
    requires
        n <= classes.len(),
        n <= priced.len(),
        n <= usize::MAX,
        0 <= i <= usize::MAX,
    ensures
        class_members(classes, priced, c, n).contains(i as usize) <==> (i < n && priced[i]
            && classes[i] == c),
    decreases n,
{
    if n > 0 {
        lemma_members_are(classes, priced, c, (n - 1) as nat, i);
        let rest = class_members(classes, priced, c, (n - 1) as nat);
        let all = class_members(classes, priced, c, n);
        if priced[n - 1] && classes[n - 1] == c {
            assert(all == rest.push((n - 1) as usize));
            if i < n && priced[i] && classes[i] == c && i != n - 1 {
                assert(rest.contains(i as usize));
                let m = choose|m: int| 0 <= m < rest.len() && rest[m] == i as usize;
                assert(all[m] == i as usize);
            }
            if i == n - 1 {
                assert(all[all.len() - 1] == i as usize);
            }
            if all.contains(i as usize) {
                let m = choose|m: int| 0 <= m < all.len() && all[m] == i as usize;
                if m < rest.len() {
                    assert(rest[m] == i as usize);
                } else {
                    assert(i as usize == (n - 1) as usize);
                }
            }
        }
    }
}

/// The classes split the priced holdings: every priced holding is listed under exactly one
/// class, its own, and an unpriced holding under none, so the class totals add up to the priced
/// total and nothing unknown is folded into them.
pub proof fn law_the_classes_split_the_priced_holdings(
    g: Seq<(Seq<char>, Seq<usize>)>,
    classes: Seq<Seq<char>>,
    priced: Seq<bool>,
    n: nat,
)
    requires
        n <= classes.len(),
        n <= priced.len(),
        n <= usize::MAX,
        classes_are(g, classes, priced, n),
    ensures
        forall|i: int|
            0 <= i < n ==> (priced[i] <==> exists|k: int|
                0 <= k < g.len() && #[trigger] g[k].1.contains(i as usize)),
        forall|i: int, k: int|
            0 <= i < n && 0 <= k < g.len() && #[trigger] g[k].1.contains(i as usize)
                ==> g[k].0 == classes[i],
        forall|i: int, k1: int, k2: int|
            0 <= i < n && 0 <= k1 < g.len() && 0 <= k2 < g.len() && #[trigger] g[k1].1.contains(
                i as usize,
            ) && #[trigger] g[k2].1.contains(i as usize) ==> k1 == k2,
{
    let names = class_names(g);
    assert forall|i: int, k: int|
        0 <= i < n && 0 <= k < g.len() && #[trigger] g[k].1.contains(i as usize) implies g[k].0
        == classes[i] && priced[i] by {
        assert(g[k].1 == class_members(classes, priced, g[k].0, n));
        lemma_members_are(classes, priced, g[k].0, n, i);
    }
    assert forall|i: int|
        0 <= i < n implies (priced[i] <==> exists|k: int|
            0 <= k < g.len() && #[trigger] g[k].1.contains(i as usize)) by {
        if priced[i] {
            let c = classes[i];
            assert(has_priced(classes, priced, c, n));
            assert(names.contains(c));
            let k = choose|k: int| 0 <= k < names.len() && names[k] == c;
            assert(names[k] == g[k].0);
            assert(g[k].1 == class_members(classes, priced, g[k].0, n));
            lemma_members_are(classes, priced, c, n, i);
            assert(g[k].1.contains(i as usize));
        }
    }
    assert forall|i: int, k1: int, k2: int|
        0 <= i < n && 0 <= k1 < g.len() && 0 <= k2 < g.len() && #[trigger] g[k1].1.contains(
            i as usize,
        ) && #[trigger] g[k2].1.contains(i as usize) implies k1 == k2 by {
        assert(g[k1].0 == classes[i] && g[k2].0 == classes[i]);
        assert(names[k1] == g[k1].0 && names[k2] == g[k2].0);
        if k1 != k2 {
            lemma_text_less_irreflexive(classes[i]);
            if k1 < k2 {
                assert(text_less(names[k1], names[k2]));
            } else {
                assert(text_less(names[k2], names[k1]));
            }
        }
    }
}

} // verus!
