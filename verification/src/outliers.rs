//! The windows the outlier report reads: the last `RECENT` rows of a matrix against the
//! `BASELINE` rows before them, and the bookkeeping of grouping holdings that move together:
//! merging two groups, and listing the groups worth reporting. Every holding is measured against
//! its own baseline, and which groups are close enough to merge is decided by correlation; the
//! measuring is floating-point statistics and is the caller's.

use vstd::prelude::*;

verus! {

/// The recent window: about three months of trading days.
pub const RECENT: usize = 63;

/// What the recent window is compared against: the year before it.
pub const BASELINE: usize = 252;

/// What changed about a holding, against its own baseline.
#[derive(Clone, Copy, Debug, PartialEq, Eq)]
pub enum Flag {
    /// It swings markedly harder, or markedly softer, than it did.
    Volatility,
    /// It stopped moving with the rest of the portfolio, or started to.
    Decoupling,
    /// Its last day, or last week, moved far outside its normal range.
    Move,
}

impl Flag {
    /// The name a flag is served under.
    pub open spec fn spec_name(self) -> Seq<char> {
        match self {
            Flag::Volatility => "volatility"@,
            Flag::Decoupling => "decoupling"@,
            Flag::Move => "move"@,
        }
    }

    pub fn name(self) -> (r: &'static str)
        ensures
            r@ == self.spec_name(),
    {
        match self {
            Flag::Volatility => "volatility",
            Flag::Decoupling => "decoupling",
            Flag::Move => "move",
        }
    }
}

/// Where the report's windows lie in a matrix of `len` rows: the baseline runs from the first
/// to the second, the recent window from the second to the end. `None` when there are fewer rows
/// than the two windows need, and the holdings are named rather than measured.
pub open spec fn windows_of(len: nat) -> Option<(nat, nat)> {
    if len < RECENT + BASELINE {
        None
    } else {
        Some(((len - RECENT - BASELINE) as nat, (len - RECENT) as nat))
    }
}

pub fn report_windows(len: usize) -> (r: Option<(usize, usize)>)
    ensures
        match windows_of(len as nat) {
            Some((a, b)) => r == Some((a as usize, b as usize)),
            None => r is None,
        },
{
    if len < RECENT + BASELINE {
        None
    } else {
        Some((len - RECENT - BASELINE, len - RECENT))
    }
}

/// The recent window is exactly `RECENT` rows ending at the last one, and the baseline exactly
/// `BASELINE` rows right before it.
pub proof fn law_the_windows_are_adjacent_and_end_at_the_last_row(len: nat)
    requires
        len >= RECENT + BASELINE,
    ensures
        ({
            let (a, b) = windows_of(len).unwrap();
            &&& b - a == BASELINE
            &&& len - b == RECENT
        }),
{
}

// ---------------------------------------------------------------------------------------------
// Grouping holdings that move together.

/// Whether the positions run in ascending order.
pub open spec fn nondecreasing(s: Seq<usize>) -> bool {
    forall|i: int, j: int| 0 <= i < j < s.len() ==> s[i] <= s[j]
}

fn insert_in_order(v: &mut Vec<usize>, x: usize)
    requires
        nondecreasing(old(v)@),
    ensures
        nondecreasing(final(v)@),
        final(v)@.to_multiset() == old(v)@.to_multiset().insert(x),
{
    let mut k: usize = 0;
    while k < v.len() && v[k] <= x
        invariant
            k <= v@.len(),
            forall|j: int| 0 <= j < k ==> v@[j] <= x,
        decreases v@.len() - k,
    {
        k += 1;
    }
    let ghost before = v@;
    v.insert(k, x);
    proof {
        vstd::seq_lib::to_multiset_insert(before, k as int, x);
        assert(v@ == before.insert(k as int, x));
        assert forall|i: int, j: int| 0 <= i < j < v@.len() implies v@[i] <= v@[j] by {
            if j < k {
                assert(v@[i] == before[i] && v@[j] == before[j]);
            } else if j == k {
                assert(v@[i] == before[i]);
            } else if i == k {
                assert(v@[j] == before[j - 1]);
                assert(before[k as int] <= before[j - 1]);
            } else if i < k {
                assert(v@[i] == before[i] && v@[j] == before[j - 1]);
            } else {
                assert(v@[i] == before[i - 1] && v@[j] == before[j - 1]);
            }
        }
    }
}

/// Merge group `b` into group `a`, as the closest pair is merged: `b` leaves the list, every
/// other group keeps its place, and `a` becomes the members of both in ascending order.
pub fn merge_groups(groups: &mut Vec<Vec<usize>>, a: usize, b: usize)
    requires
        a < b < old(groups)@.len(),
    ensures
        final(groups)@.len() == old(groups)@.len() - 1,
        forall|j: int|
            0 <= j < a ==> #[trigger] final(groups)@[j] == old(groups)@[j],
        forall|j: int|
            a < j < b ==> #[trigger] final(groups)@[j] == old(groups)@[j],
        forall|j: int|
            b <= j < final(groups)@.len() ==> #[trigger] final(groups)@[j] == old(groups)@[j + 1],
        nondecreasing(final(groups)@[a as int]@),
        final(groups)@[a as int]@.to_multiset() == (old(groups)@[a as int]@
            + old(groups)@[b as int]@).to_multiset(),
{
    let ghost start = groups@;
    let moved = groups.remove(b);
    let first = groups.remove(a);
    let mut merged: Vec<usize> = Vec::new();
    let mut i: usize = 0;
    assert(first@.take(0) =~= Seq::<usize>::empty());
    while i < first.len()
        invariant
            i <= first@.len(),
            nondecreasing(merged@),
            merged@.to_multiset() == first@.take(i as int).to_multiset(),
        decreases first@.len() - i,
    {
        insert_in_order(&mut merged, first[i]);
        proof {
            assert(first@.take(i as int + 1) =~= first@.take(i as int).push(first@[i as int]));
            vstd::seq_lib::to_multiset_build(first@.take(i as int), first@[i as int]);
        }
        i += 1;
    }
    assert(first@.take(i as int) =~= first@);
    let mut i: usize = 0;
    assert(first@ + moved@.take(0) =~= first@);
    while i < moved.len()
        invariant
            i <= moved@.len(),
            nondecreasing(merged@),
            merged@.to_multiset() == (first@ + moved@.take(i as int)).to_multiset(),
        decreases moved@.len() - i,
    {
        insert_in_order(&mut merged, moved[i]);
        proof {
            assert(first@ + moved@.take(i as int + 1) =~= (first@ + moved@.take(i as int)).push(
                moved@[i as int],
            ));
            vstd::seq_lib::to_multiset_build(first@ + moved@.take(i as int), moved@[i as int]);
        }
        i += 1;
    }
    assert(moved@.take(i as int) =~= moved@);
    groups.insert(a, merged);
    proof {
        assert(moved == start[b as int]);
        assert(first == start[a as int]);
        assert forall|j: int| b <= j < groups@.len() implies #[trigger] groups@[j] == start[j
            + 1] by {}
    }
}

/// The groups among `gs` of exactly `s` members, in order.
pub open spec fn of_size(gs: Seq<Seq<usize>>, s: nat) -> Seq<Seq<usize>>
    decreases gs.len(),
{
    if gs.len() == 0 {
        gs
    } else if gs.last().len() == s {
        of_size(gs.drop_last(), s).push(gs.last())
    } else {
        of_size(gs.drop_last(), s)
    }
}

/// Whether every group is at least as large as the ones after it.
pub open spec fn largest_before(gs: Seq<Seq<usize>>) -> bool {
    forall|i: int, j: int|
        0 <= i < j < gs.len() ==> (#[trigger] gs[i]).len() >= (#[trigger] gs[j]).len()
}

pub open spec fn member_views(gs: Seq<Vec<usize>>) -> Seq<Seq<usize>> {
    gs.map_values(|g: Vec<usize>| g@)
}

proof fn lemma_of_size_add(a: Seq<Seq<usize>>, b: Seq<Seq<usize>>, s: nat)
    ensures
        of_size(a + b, s) == of_size(a, s) + of_size(b, s),
    decreases b.len(),
{
    if b.len() == 0 {
        assert(a + b =~= a);
        assert(of_size(a, s) + of_size(b, s) =~= of_size(a, s));
    } else {
        lemma_of_size_add(a, b.drop_last(), s);
        assert((a + b).drop_last() =~= a + b.drop_last());
        assert((a + b).last() == b.last());
        if b.last().len() == s {
            assert(of_size(a, s) + of_size(b, s) =~= (of_size(a, s) + of_size(b.drop_last(), s)).push(
                b.last(),
            ));
        }
    }
}

proof fn lemma_of_size_none(gs: Seq<Seq<usize>>, s: nat)
    requires
        forall|i: int| 0 <= i < gs.len() ==> (#[trigger] gs[i]).len() != s,
    ensures
        of_size(gs, s) == Seq::<Seq<usize>>::empty(),
    decreases gs.len(),
{
    if gs.len() > 0 {
        assert(gs.last() == gs[gs.len() - 1]);
        lemma_of_size_none(gs.drop_last(), s);
    }
}

/// The groups worth reporting, largest first: every group of two or more members, a larger one
/// before a smaller one, and groups of one size in the order they were given. A holding that
/// moves with nothing else is no group.
pub fn largest_first(groups: Vec<Vec<usize>>) -> (r: Vec<Vec<usize>>)
    ensures
        largest_before(member_views(r@)),
        forall|s: nat|
            #[trigger] of_size(member_views(r@), s) == if s > 1 {
                of_size(member_views(groups@), s)
            } else {
                Seq::empty()
            },
{
    let mut out: Vec<Vec<usize>> = Vec::new();
    let mut i: usize = 0;
    let ghost input = member_views(groups@);
    proof {
        assert(member_views(out@) =~= Seq::<Seq<usize>>::empty());
        assert(input.take(0) =~= Seq::<Seq<usize>>::empty());
    }
    while i < groups.len()
        invariant
            i <= groups@.len(),
            input == member_views(groups@),
            largest_before(member_views(out@)),
            forall|s: nat|
                #[trigger] of_size(member_views(out@), s) == if s > 1 {
                    of_size(input.take(i as int), s)
                } else {
                    Seq::empty()
                },
        decreases groups@.len() - i,
    {
        let ghost before = member_views(out@);
        let ghost g = input[i as int];
        proof {
            assert(input.take(i as int + 1).drop_last() =~= input.take(i as int));
            assert(input.take(i as int + 1).last() == g);
            assert(g == groups@[i as int]@);
        }
        let size = groups[i].len();
        if size > 1 {
            let mut k: usize = 0;
            while k < out.len() && out[k].len() >= size
                invariant
                    k <= out@.len(),
                    before == member_views(out@),
                    forall|j: int| 0 <= j < k ==> (#[trigger] before[j]).len() >= size,
                decreases out@.len() - k,
            {
                assert(before[k as int] == out@[k as int]@);
                k += 1;
            }
            proof {
                if k < out@.len() {
                    assert(before[k as int] == out@[k as int]@);
                }
            }
            out.insert(k, groups[i].clone());
            proof {
                let after = member_views(out@);
                assert(after =~= before.insert(k as int, g));
                assert(before =~= before.take(k as int) + before.skip(k as int));
                assert(after =~= before.take(k as int) + seq![g] + before.skip(k as int));
                assert forall|a: int, b: int| 0 <= a < b < after.len() implies (
                #[trigger] after[a]).len() >= (#[trigger] after[b]).len() by {
                    if b < k {
                        assert(after[a] == before[a] && after[b] == before[b]);
                    } else if b == k {
                        assert(after[a] == before[a]);
                    } else if a == k {
                        assert(after[b] == before[b - 1]);
                        assert(before[k as int].len() < size);
                        assert(before[k as int].len() >= before[b - 1].len());
                    } else if a < k {
                        assert(after[a] == before[a] && after[b] == before[b - 1]);
                    } else {
                        assert(after[a] == before[a - 1] && after[b] == before[b - 1]);
                    }
                }
                assert forall|s: nat| #[trigger] of_size(after, s) == if s > 1 {
                    of_size(input.take(i as int + 1), s)
                } else {
                    Seq::empty()
                } by {
                    let (head, tail) = (before.take(k as int), before.skip(k as int));
                    lemma_of_size_add(head + seq![g], tail, s);
                    lemma_of_size_add(head, seq![g], s);
                    lemma_of_size_add(head, tail, s);
                    let e = Seq::<Seq<usize>>::empty();
                    assert(of_size(e, s) == e);
                    assert(seq![g].drop_last() =~= e);
                    assert(seq![g].last() == g);
                    assert(g.len() == size);
                    assert(of_size(seq![g], s) == if s == size {
                        of_size(e, s).push(g)
                    } else {
                        of_size(e, s)
                    });
                    if s == size {
                        assert forall|j: int| 0 <= j < tail.len() implies (
                        #[trigger] tail[j]).len() != s by {
                            assert(tail[j] == before[k + j]);
                            assert(before[k as int].len() < size);
                            if j > 0 {
                                assert(before[k as int].len() >= before[k + j].len());
                            }
                        }
                        lemma_of_size_none(tail, s);
                        assert(of_size(after, s) =~= of_size(before, s).push(g));
                    } else {
                        assert(of_size(seq![g], s) =~= Seq::<Seq<usize>>::empty());
                        assert(of_size(after, s) =~= of_size(before, s));
                    }
                }
            }
        } else {
            proof {
                assert forall|s: nat| #[trigger] of_size(before, s) == if s > 1 {
                    of_size(input.take(i as int + 1), s)
                } else {
                    Seq::empty()
                } by {}
            }
        }
        i += 1;
    }
    proof {
        assert(input.take(i as int) =~= input);
    }
    out
}

/// Every member of every group, counted once per appearance.
pub open spec fn members(gs: Seq<Seq<usize>>) -> vstd::multiset::Multiset<usize>
    decreases gs.len(),
{
    if gs.len() == 0 {
        vstd::multiset::Multiset::empty()
    } else {
        members(gs.drop_last()).add(gs.last().to_multiset())
    }
}

proof fn lemma_members_remove(gs: Seq<Seq<usize>>, j: int)
    requires
        0 <= j < gs.len(),
    ensures
        members(gs) == members(gs.remove(j)).add(gs[j].to_multiset()),
    decreases gs.len(),
{
    broadcast use vstd::multiset::group_multiset_axioms;

    if j == gs.len() - 1 {
        assert(gs.remove(j) =~= gs.drop_last());
    } else {
        let init = gs.drop_last();
        lemma_members_remove(init, j);
        let r = gs.remove(j);
        assert(r.drop_last() =~= init.remove(j));
        assert(r.last() == gs.last());
        assert(init[j] == gs[j]);
        assert(members(gs) =~= members(r).add(gs[j].to_multiset()));
    }
}

/// Merging groups loses no holding and counts none twice: what the groups hold together after a
/// merge is exactly what they held before it, so starting from one group per holding, every
/// holding ends up in exactly one group however the merges fall.
pub proof fn law_a_merge_keeps_every_holding_once(
    before: Seq<Seq<usize>>,
    after: Seq<Seq<usize>>,
    a: int,
    b: int,
)
    requires
        0 <= a < b < before.len(),
        after.len() == before.len() - 1,
        forall|j: int| 0 <= j < after.len() && j != a ==> #[trigger] after[j] == before.remove(b)[j],
        after[a].to_multiset() == (before[a] + before[b]).to_multiset(),
    ensures
        members(after) == members(before),
{
    broadcast use vstd::multiset::group_multiset_axioms;

    let s1 = before.remove(b);
    lemma_members_remove(before, b);
    lemma_members_remove(s1, a);
    lemma_members_remove(after, a);
    assert(s1[a] == before[a]);
    assert forall|j: int| 0 <= j < after.remove(a).len() implies #[trigger] after.remove(a)[j]
        == s1.remove(a)[j] by {
        if j < a {
            assert(after[j] == s1[j]);
        } else {
            assert(after[j + 1] == s1[j + 1]);
        }
    }
    assert(after.remove(a) =~= s1.remove(a));
    vstd::seq_lib::lemma_multiset_commutative(before[a], before[b]);
    assert(members(after) =~= members(before));
}

} // verus!
