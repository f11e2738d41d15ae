//! The shape of a returns matrix: which symbols have enough history to enter it, which days it
//! runs over, and how a window or a subset of it is cut. The returns themselves are ratios of
//! floating-point closes and are computed by the caller over the days chosen here.

use vstd::prelude::*;

use crate::import::texts;
use crate::text::{
    chars_eq, chars_of, lemma_text_less_irreflexive, lemma_text_less_total,
    lemma_text_less_transitive, text_before, text_less,
};

verus! {

/// Fewer shared observations than this and the covariance is noise with a decimal point.
pub const MIN_OBS: usize = 252;

/// The rows `[from, to)` of a matrix of `len` rows, clamped to it.
pub open spec fn slice_of(len: nat, from: nat, to: nat) -> (nat, nat) {
    let t = if to < len {
        to
    } else {
        len
    };
    let f = if from < t {
        from
    } else {
        t
    };
    (f, t)
}

pub fn slice_bounds(len: usize, from: usize, to: usize) -> (r: (usize, usize))
    ensures
        (r.0 as nat, r.1 as nat) == slice_of(len as nat, from as nat, to as nat),
        r.0 <= r.1 <= len,
{
    let t = if to < len {
        to
    } else {
        len
    };
    let f = if from < t {
        from
    } else {
        t
    };
    (f, t)
}

/// The index of the first of `symbols` equal to `s`.
pub open spec fn position_of(symbols: Seq<Seq<char>>, s: Seq<char>) -> Option<int>
    decreases symbols.len(),
{
    if symbols.len() == 0 {
        None
    } else {
        match position_of(symbols.drop_last(), s) {
            Some(i) => Some(i),
            None => if symbols.last() == s {
                Some(symbols.len() - 1)
            } else {
                None
            },
        }
    }
}

/// The columns of the wanted symbols that the matrix has, in the order wanted.
pub open spec fn picked(symbols: Seq<Seq<char>>, want: Seq<Seq<char>>) -> Seq<int>
    decreases want.len(),
{
    if want.len() == 0 {
        Seq::empty()
    } else {
        let rest = picked(symbols, want.drop_last());
        match position_of(symbols, want.last()) {
            Some(i) => rest.push(i),
            None => rest,
        }
    }
}

pub(crate) fn position(symbols: &[String], s: &String) -> (r: Option<usize>)
    ensures
        r matches Some(k) ==> position_of(texts(symbols@), s@) == Some(k as int),
        r is None ==> position_of(texts(symbols@), s@) is None,
{
    let want = chars_of(s.as_str());
    let mut i: usize = 0;
    while i < symbols.len()
        invariant
            i <= symbols@.len(),
            want@ == s@,
            position_of(texts(symbols@.take(i as int)), s@) is None,
        decreases symbols@.len() - i,
    {
        let ghost t = texts(symbols@.take(i as int + 1));
        proof {
            assert(t.drop_last() =~= texts(symbols@.take(i as int)));
            assert(t.last() == symbols@[i as int]@);
        }
        if chars_eq(&chars_of(symbols[i].as_str()), &want) {
            proof {
                assert(texts(symbols@).take(i as int + 1) =~= t);
                assert(t.last() == s@);
                lemma_position_prefix(texts(symbols@), s@, i as int + 1);
            }
            return Some(i);
        }
        i += 1;
    }
    assert(symbols@.take(i as int) =~= symbols@);
    None
}

pub proof fn lemma_position_of(symbols: Seq<Seq<char>>, s: Seq<char>)
    ensures
        position_of(symbols, s) matches Some(i) ==> 0 <= i < symbols.len() && symbols[i] == s,
    decreases symbols.len(),
{
    if symbols.len() > 0 {
        lemma_position_of(symbols.drop_last(), s);
    }
}

proof fn lemma_position_prefix(symbols: Seq<Seq<char>>, s: Seq<char>, k: int)
    requires
        0 < k <= symbols.len(),
        position_of(symbols.take(k), s) == Some(k - 1),
    ensures
        position_of(symbols, s) == Some(k - 1),
    decreases symbols.len(),
{
    if symbols.len() > k {
        assert(symbols.drop_last().take(k) =~= symbols.take(k));
        lemma_position_prefix(symbols.drop_last(), s, k);
    } else {
        assert(symbols.take(k) =~= symbols);
    }
}

/// The columns of `want` in a matrix over `symbols`: each wanted symbol it has, in the order
/// wanted, and none for a symbol it lacks.
pub fn pick_indices(symbols: &[String], want: &[String]) -> (r: Vec<usize>)
    ensures
        r@.map_values(|i: usize| i as int) == picked(texts(symbols@), texts(want@)),
{
    let mut r: Vec<usize> = Vec::new();
    let mut i: usize = 0;
    while i < want.len()
        invariant
            i <= want@.len(),
            r@.map_values(|i: usize| i as int) == picked(texts(symbols@), texts(want@.take(i as int))),
        decreases want@.len() - i,
    {
        let ghost t = texts(want@.take(i as int + 1));
        proof {
            assert(t.drop_last() =~= texts(want@.take(i as int)));
            assert(t.last() == want@[i as int]@);
        }
        let ghost before = r@;
        match position(symbols, &want[i]) {
            Some(p) => {
                r.push(p);
                assert(r@.map_values(|i: usize| i as int) =~= before.map_values(|i: usize| i as int).push(
                    p as int,
                ));
            },
            None => {},
        }
        i += 1;
    }
    assert(want@.take(i as int) =~= want@);
    r
}

// ---------------------------------------------------------------------------------------------
// Which symbols enter a matrix, and over which days.

/// Days in increasing order with none repeated, as the keys of a sorted map come.
pub open spec fn increasing(p: Seq<Seq<char>>) -> bool {
    forall|i: int, j: int| 0 <= i < j < p.len() ==> text_less(#[trigger] p[i], #[trigger] p[j])
}

/// Whether a symbol's history starts on or before the start of the window; any history does
/// when there is no window.
pub open spec fn reaches_back(p: Seq<Seq<char>>, since: Seq<char>) -> bool {
    since.len() == 0 || (p.len() > 0 && !text_less(since, p[0]))
}

/// The days on or after `since`, all of them when `since` is empty.
pub open spec fn on_or_after(p: Seq<Seq<char>>, since: Seq<char>) -> Seq<Seq<char>>
    decreases p.len(),
{
    if p.len() == 0 {
        p
    } else {
        let rest = on_or_after(p.drop_last(), since);
        if since.len() == 0 || !text_less(p.last(), since) {
            rest.push(p.last())
        } else {
            rest
        }
    }
}

/// Whether a symbol enters the matrix: it has history in base currency, more than `MIN_OBS`
/// days of it, reaching back to the start of the window, and more than `MIN_OBS` days inside
/// the window. A symbol that listed last year is excluded rather than allowed to truncate
/// everything else to last year.
pub open spec fn usable(d: Option<Seq<Seq<char>>>, since: Seq<char>) -> bool {
    match d {
        Some(p) => p.len() > MIN_OBS && reaches_back(p, since) && on_or_after(p, since).len()
            > MIN_OBS,
        None => false,
    }
}

/// The positions of the symbols that enter, in order.
pub open spec fn usable_at(ds: Seq<Option<Seq<Seq<char>>>>, since: Seq<char>) -> Seq<int>
    decreases ds.len(),
{
    if ds.len() == 0 {
        Seq::empty()
    } else {
        let rest = usable_at(ds.drop_last(), since);
        if usable(ds.last(), since) {
            rest.push(ds.len() - 1)
        } else {
            rest
        }
    }
}

/// The symbols that do not enter, in order.
pub open spec fn unusable_of(
    want: Seq<Seq<char>>,
    ds: Seq<Option<Seq<Seq<char>>>>,
    since: Seq<char>,
) -> Seq<Seq<char>>
    decreases ds.len(),
{
    if ds.len() == 0 || want.len() != ds.len() {
        Seq::empty()
    } else {
        let rest = unusable_of(want.drop_last(), ds.drop_last(), since);
        if usable(ds.last(), since) {
            rest
        } else {
            rest.push(want.last())
        }
    }
}

/// The window of days of the symbol at each position.
pub open spec fn windows_at(
    ds: Seq<Option<Seq<Seq<char>>>>,
    at: Seq<int>,
    since: Seq<char>,
) -> Seq<Seq<Seq<char>>>
    decreases at.len(),
{
    if at.len() == 0 {
        Seq::empty()
    } else {
        let p = match ds[at.last()] {
            Some(p) => p,
            None => Seq::empty(),
        };
        windows_at(ds, at.drop_last(), since).push(on_or_after(p, since))
    }
}

/// Whether every list holds the day.
pub open spec fn in_all(d: Seq<char>, lists: Seq<Seq<Seq<char>>>) -> bool {
    forall|j: int| 0 <= j < lists.len() ==> (#[trigger] lists[j]).contains(d)
}

/// The days of `first` that every other list also has, in `first`'s order. Not a forward fill:
/// a covariance wants observations that really happened on the same day.
pub open spec fn common(first: Seq<Seq<char>>, others: Seq<Seq<Seq<char>>>) -> Seq<Seq<char>>
    decreases first.len(),
{
    if first.len() == 0 {
        first
    } else {
        let rest = common(first.drop_last(), others);
        if in_all(first.last(), others) {
            rest.push(first.last())
        } else {
            rest
        }
    }
}

/// The symbols at the given positions.
pub open spec fn symbols_at(want: Seq<Seq<char>>, at: Seq<int>) -> Seq<Seq<char>>
    decreases at.len(),
{
    if at.len() == 0 {
        Seq::empty()
    } else {
        symbols_at(want, at.drop_last()).push(want[at.last()])
    }
}

/// The plan for a matrix: the positions of the symbols in it, the days it runs over (the first
/// of them only anchors the first return), and the symbols left out, named. When too few days
/// are shared the matrix is empty and every symbol is left out.
pub open spec fn plan_of(
    want: Seq<Seq<char>>,
    ds: Seq<Option<Seq<Seq<char>>>>,
    since: Seq<char>,
) -> (Seq<int>, Seq<Seq<char>>, Seq<Seq<char>>) {
    let at = usable_at(ds, since);
    let out = unusable_of(want, ds, since);
    if at.len() == 0 {
        (Seq::empty(), Seq::empty(), out)
    } else {
        let ws = windows_at(ds, at, since);
        let days = common(ws[0], ws.drop_first());
        if days.len() <= MIN_OBS {
            (Seq::empty(), Seq::empty(), out + symbols_at(want, at))
        } else {
            (at, days, out)
        }
    }
}

/// The plan, as built.
pub struct Plan {
    /// Positions in the wanted list of the symbols that enter, in order.
    pub kept: Vec<usize>,
    /// The shared days, in order. Returns run from each day to the next.
    pub days: Vec<String>,
    /// The symbols left out, named rather than silently dropped.
    pub excluded: Vec<String>,
}

pub open spec fn day_lists(ds: Seq<Option<Vec<String>>>) -> Seq<Option<Seq<Seq<char>>>> {
    ds.map_values(|d: Option<Vec<String>>| opt_days(d))
}

pub open spec fn opt_days(d: Option<Vec<String>>) -> Option<Seq<Seq<char>>> {
    match d {
        Some(p) => Some(texts(p@)),
        None => None,
    }
}

pub open spec fn window_views(ws: Seq<Vec<String>>) -> Seq<Seq<Seq<char>>> {
    ws.map_values(|w: Vec<String>| texts(w@))
}

/// The window of days of one history.
fn window(p: &Vec<String>, since: &Vec<char>) -> (r: Vec<String>)
    ensures
        texts(r@) == on_or_after(texts(p@), since@),
{
    let mut r: Vec<String> = Vec::new();
    let mut i: usize = 0;
    while i < p.len()
        invariant
            i <= p@.len(),
            texts(r@) == on_or_after(texts(p@.take(i as int)), since@),
        decreases p@.len() - i,
    {
        let ghost t = texts(p@.take(i as int + 1));
        proof {
            assert(t.drop_last() =~= texts(p@.take(i as int)));
            assert(t.last() == p@[i as int]@);
        }
        if since.len() == 0 || !text_before(&chars_of(p[i].as_str()), since.as_slice()) {
            let ghost before = r@;
            r.push(p[i].clone());
            assert(texts(r@) =~= texts(before).push(p@[i as int]@));
        }
        i += 1;
    }
    assert(p@.take(i as int) =~= p@);
    r
}

/// The window of a history that enters the matrix, or `None` when it does not enter.
fn entering(d: &Option<Vec<String>>, since: &Vec<char>) -> (r: Option<Vec<String>>)
    ensures
        usable(opt_days(*d), since@) <==> r is Some,
        r matches Some(w) ==> (d matches Some(p) && texts(w@) == on_or_after(texts(p@), since@)),
{
    match d {
        None => None,
        Some(p) => {
            if p.len() <= MIN_OBS {
                return None;
            }
            if since.len() > 0 {
                let first = chars_of(p[0].as_str());
                assert(texts(p@)[0] == p@[0]@);
                if text_before(since.as_slice(), first.as_slice()) {
                    return None;
                }
            }
            let w = window(p, since);
            if w.len() <= MIN_OBS {
                return None;
            }
            Some(w)
        },
    }
}

fn holds_day(list: &Vec<String>, d: &Vec<char>) -> (r: bool)
    ensures
        r == texts(list@).contains(d@),
{
    let mut i: usize = 0;
    while i < list.len()
        invariant
            i <= list@.len(),
            forall|j: int| 0 <= j < i ==> #[trigger] list@[j]@ != d@,
        decreases list@.len() - i,
    {
        if chars_eq(&chars_of(list[i].as_str()), d.as_slice()) {
            assert(texts(list@)[i as int] == d@);
            return true;
        }
        i += 1;
    }
    proof {
        if texts(list@).contains(d@) {
            let j = choose|j: int| 0 <= j < texts(list@).len() && texts(list@)[j] == d@;
            assert(list@[j]@ == d@);
        }
    }
    false
}

fn held_by_rest(ws: &Vec<Vec<String>>, d: &Vec<char>) -> (r: bool)
    requires
        ws@.len() > 0,
    ensures
        r == in_all(d@, window_views(ws@).drop_first()),
{
    let ghost rest = window_views(ws@).drop_first();
    let mut j: usize = 1;
    while j < ws.len()
        invariant
            1 <= j <= ws@.len(),
            rest == window_views(ws@).drop_first(),
            forall|k: int| 0 <= k < j - 1 ==> (#[trigger] rest[k]).contains(d@),
        decreases ws@.len() - j,
    {
        assert(rest[j - 1] == texts(ws@[j as int]@));
        if !holds_day(&ws[j], d) {
            return false;
        }
        j += 1;
    }
    true
}

fn common_days(ws: &Vec<Vec<String>>) -> (r: Vec<String>)
    requires
        ws@.len() > 0,
    ensures
        texts(r@) == common(window_views(ws@)[0], window_views(ws@).drop_first()),
{
    let first = &ws[0];
    let ghost f = texts(first@);
    let ghost others = window_views(ws@).drop_first();
    assert(window_views(ws@)[0] == f);
    let mut r: Vec<String> = Vec::new();
    let mut i: usize = 0;
    while i < first.len()
        invariant
            i <= first@.len(),
            f == texts(first@),
            ws@.len() > 0,
            others == window_views(ws@).drop_first(),
            texts(r@) == common(f.take(i as int), others),
        decreases first@.len() - i,
    {
        proof {
            assert(f.take(i as int + 1).drop_last() =~= f.take(i as int));
            assert(f.take(i as int + 1).last() == first@[i as int]@);
        }
        let d = chars_of(first[i].as_str());
        if held_by_rest(ws, &d) {
            let ghost before = r@;
            r.push(first[i].clone());
            assert(texts(r@) =~= texts(before).push(first@[i as int]@));
        }
        i += 1;
    }
    assert(f.take(i as int) =~= f);
    r
}

proof fn lemma_on_or_after_keeps_order(p: Seq<Seq<char>>, since: Seq<char>)
    ensures
        forall|x: Seq<char>| on_or_after(p, since).contains(x) ==> p.contains(x),
        increasing(p) ==> increasing(on_or_after(p, since)),
    decreases p.len(),
{
    if p.len() > 0 {
        let init = p.drop_last();
        lemma_on_or_after_keeps_order(init, since);
        let q = on_or_after(init, since);
        assert forall|x: Seq<char>| on_or_after(p, since).contains(x) implies p.contains(x) by {
            let k = choose|k: int| 0 <= k < on_or_after(p, since).len() && on_or_after(p, since)[k]
                == x;
            if k < q.len() {
                assert(on_or_after(p, since)[k] == q[k]);
                assert(q.contains(x));
                assert(init.contains(x));
                let m = choose|m: int| 0 <= m < init.len() && init[m] == x;
                assert(p[m] == x);
            } else {
                assert(p[p.len() - 1] == x);
            }
        }
        if increasing(p) {
            assert(increasing(init)) by {
                assert forall|i: int, j: int| 0 <= i < j < init.len() implies text_less(
                    #[trigger] init[i],
                    #[trigger] init[j],
                ) by {
                    assert(init[i] == p[i] && init[j] == p[j]);
                }
            }
            if since.len() == 0 || !text_less(p.last(), since) {
                let r = q.push(p.last());
                assert forall|i: int, j: int| 0 <= i < j < r.len() implies text_less(
                    #[trigger] r[i],
                    #[trigger] r[j],
                ) by {
                    if j < q.len() {
                        assert(r[i] == q[i] && r[j] == q[j]);
                    } else {
                        assert(r[i] == q[i]);
                        assert(q.contains(q[i]));
                        assert(init.contains(q[i]));
                        let m = choose|m: int| 0 <= m < init.len() && init[m] == q[i];
                        assert(p[m] == q[i]);
                        assert(r[j] == p[p.len() - 1]);
                    }
                }
            }
        }
    }
}

proof fn lemma_common_keeps_order(first: Seq<Seq<char>>, others: Seq<Seq<Seq<char>>>)
    ensures
        forall|x: Seq<char>| common(first, others).contains(x) ==> first.contains(x),
        increasing(first) ==> increasing(common(first, others)),
    decreases first.len(),
{
    if first.len() > 0 {
        let p = first;
        let init = p.drop_last();
        lemma_common_keeps_order(init, others);
        let q = common(init, others);
        assert forall|x: Seq<char>| common(p, others).contains(x) implies p.contains(x) by {
            let k = choose|k: int| 0 <= k < common(p, others).len() && common(p, others)[k] == x;
            if k < q.len() {
                assert(common(p, others)[k] == q[k]);
                assert(q.contains(x));
                assert(init.contains(x));
                let m = choose|m: int| 0 <= m < init.len() && init[m] == x;
                assert(p[m] == x);
            } else {
                assert(p[p.len() - 1] == x);
            }
        }
        if increasing(p) {
            assert(increasing(init)) by {
                assert forall|i: int, j: int| 0 <= i < j < init.len() implies text_less(
                    #[trigger] init[i],
                    #[trigger] init[j],
                ) by {
                    assert(init[i] == p[i] && init[j] == p[j]);
                }
            }
            if in_all(p.last(), others) {
                let r = q.push(p.last());
                assert forall|i: int, j: int| 0 <= i < j < r.len() implies text_less(
                    #[trigger] r[i],
                    #[trigger] r[j],
                ) by {
                    if j < q.len() {
                        assert(r[i] == q[i] && r[j] == q[j]);
                    } else {
                        assert(r[i] == q[i]);
                        assert(q.contains(q[i]));
                        assert(init.contains(q[i]));
                        let m = choose|m: int| 0 <= m < init.len() && init[m] == q[i];
                        assert(p[m] == q[i]);
                        assert(r[j] == p[p.len() - 1]);
                    }
                }
            }
        }
    }
}

/// The shared days come out in increasing order whenever every history's days do, as the
/// keys of a sorted map always are; so no further sort is needed.
pub proof fn law_shared_days_stay_in_order(
    want: Seq<Seq<char>>,
    ds: Seq<Option<Seq<Seq<char>>>>,
    since: Seq<char>,
)
    requires
        forall|i: int| 0 <= i < ds.len() ==> (#[trigger] ds[i] matches Some(p) ==> increasing(p)),
    ensures
        increasing(plan_of(want, ds, since).1),
{
    let at = usable_at(ds, since);
    if at.len() > 0 {
        lemma_usable_at_bounds(ds, since);
        let ws = windows_at(ds, at, since);
        let p = match ds[at[0]] {
            Some(p) => p,
            None => Seq::empty(),
        };
        lemma_windows_first(ds, at, since);
        assert(ws[0] == on_or_after(p, since));
        assert(increasing(p)) by {
            assert(0 <= at[0] < ds.len());
            if ds[at[0]] is None {
                assert(increasing(Seq::<Seq<char>>::empty()));
            }
        }
        lemma_on_or_after_keeps_order(p, since);
        lemma_common_keeps_order(ws[0], ws.drop_first());
    } else {
        assert(increasing(Seq::<Seq<char>>::empty()));
    }
}

proof fn lemma_windows_first(ds: Seq<Option<Seq<Seq<char>>>>, at: Seq<int>, since: Seq<char>)
    requires
        at.len() > 0,
    ensures
        windows_at(ds, at, since).len() == at.len(),
        windows_at(ds, at, since)[0] == on_or_after(
            match ds[at[0]] {
                Some(p) => p,
                None => Seq::empty(),
            },
            since,
        ),
    decreases at.len(),
{
    let pre = windows_at(ds, at.drop_last(), since);
    if at.len() > 1 {
        lemma_windows_first(ds, at.drop_last(), since);
        assert(at.drop_last()[0] == at[0]);
        assert(windows_at(ds, at, since)[0] == pre[0]);
    } else {
        assert(at.drop_last().len() == 0);
        assert(pre == Seq::<Seq<Seq<char>>>::empty());
        assert(at.last() == at[0]);
    }
}

proof fn lemma_split_accounts(
    want: Seq<Seq<char>>,
    ds: Seq<Option<Seq<Seq<char>>>>,
    since: Seq<char>,
)
    requires
        want.len() == ds.len(),
    ensures
        usable_at(ds, since).len() + unusable_of(want, ds, since).len() == want.len(),
        forall|i: int|
            0 <= i < want.len() ==> #[trigger] usable_at(ds, since).contains(i)
                || unusable_of(want, ds, since).contains(want[i]),
    decreases ds.len(),
{
    if ds.len() > 0 {
        let (w0, d0) = (want.drop_last(), ds.drop_last());
        lemma_split_accounts(w0, d0, since);
        let at0 = usable_at(d0, since);
        let out0 = unusable_of(w0, d0, since);
        let at = usable_at(ds, since);
        let out = unusable_of(want, ds, since);
        assert forall|i: int|
            0 <= i < want.len() implies #[trigger] at.contains(i) || out.contains(want[i]) by {
            if i < want.len() - 1 {
                assert(w0[i] == want[i]);
                if at0.contains(i) {
                    let k = choose|k: int| 0 <= k < at0.len() && at0[k] == i;
                    assert(at[k] == i);
                } else {
                    assert(out0.contains(want[i]));
                    let k = choose|k: int| 0 <= k < out0.len() && out0[k] == want[i];
                    assert(out[k] == want[i]);
                }
            } else if usable(ds.last(), since) {
                assert(at[at.len() - 1] == i);
            } else {
                assert(out[out.len() - 1] == want[i]);
            }
        }
    }
}

proof fn lemma_symbols_at(want: Seq<Seq<char>>, at: Seq<int>)
    ensures
        symbols_at(want, at).len() == at.len(),
        forall|k: int| 0 <= k < at.len() ==> #[trigger] symbols_at(want, at)[k] == want[at[k]],
    decreases at.len(),
{
    if at.len() > 0 {
        lemma_symbols_at(want, at.drop_last());
        let s = symbols_at(want, at);
        let s0 = symbols_at(want, at.drop_last());
        assert forall|k: int| 0 <= k < at.len() implies #[trigger] s[k] == want[at[k]] by {
            if k < at.len() - 1 {
                assert(s[k] == s0[k]);
                assert(at.drop_last()[k] == at[k]);
            }
        }
    }
}

/// No symbol is silently dropped: every wanted symbol either enters the matrix or is named
/// among those left out, and the two together account for every one of them.
pub proof fn law_no_symbol_is_silently_dropped(
    want: Seq<Seq<char>>,
    ds: Seq<Option<Seq<Seq<char>>>>,
    since: Seq<char>,
)
    requires
        want.len() == ds.len(),
    ensures
        ({
            let (at, days, out) = plan_of(want, ds, since);
            &&& at.len() + out.len() == want.len()
            &&& forall|i: int|
                0 <= i < want.len() ==> #[trigger] at.contains(i) || out.contains(want[i])
        }),
{
    lemma_split_accounts(want, ds, since);
    let at = usable_at(ds, since);
    let out = unusable_of(want, ds, since);
    let p = plan_of(want, ds, since);
    lemma_usable_at_bounds(ds, since);
    if at.len() == 0 {
        assert(p == (Seq::<int>::empty(), Seq::<Seq<char>>::empty(), out));
        assert forall|i: int| 0 <= i < want.len() implies #[trigger] p.0.contains(i)
            || p.2.contains(want[i]) by {
            assert(!at.contains(i));
        }
    } else {
        let ws = windows_at(ds, at, since);
        let days = common(ws[0], ws.drop_first());
        if days.len() <= MIN_OBS {
            lemma_symbols_at(want, at);
            let all = out + symbols_at(want, at);
            assert(p == (Seq::<int>::empty(), Seq::<Seq<char>>::empty(), all));
            assert forall|i: int| 0 <= i < want.len() implies #[trigger] p.0.contains(i)
                || p.2.contains(want[i]) by {
                if at.contains(i) {
                    let k = choose|k: int| 0 <= k < at.len() && at[k] == i;
                    assert(all[out.len() + k] == want[i]);
                } else {
                    let k = choose|k: int| 0 <= k < out.len() && out[k] == want[i];
                    assert(all[k] == want[i]);
                }
            }
        } else {
            assert(p == (at, days, out));
        }
    }
}

proof fn lemma_prefix_step(
    want: Seq<Seq<char>>,
    ds: Seq<Option<Seq<Seq<char>>>>,
    since: Seq<char>,
    i: int,
)
    requires
        want.len() == ds.len(),
        0 <= i < ds.len(),
    ensures
        usable_at(ds.take(i + 1), since) == (if usable(ds[i], since) {
            usable_at(ds.take(i), since).push(i)
        } else {
            usable_at(ds.take(i), since)
        }),
        unusable_of(want.take(i + 1), ds.take(i + 1), since) == (if usable(ds[i], since) {
            unusable_of(want.take(i), ds.take(i), since)
        } else {
            unusable_of(want.take(i), ds.take(i), since).push(want[i])
        }),
{
    assert(ds.take(i + 1).drop_last() =~= ds.take(i));
    assert(want.take(i + 1).drop_last() =~= want.take(i));
}

proof fn lemma_usable_at_bounds(ds: Seq<Option<Seq<Seq<char>>>>, since: Seq<char>)
    ensures
        forall|k: int|
            0 <= k < usable_at(ds, since).len() ==> 0 <= #[trigger] usable_at(ds, since)[k]
                < ds.len(),
    decreases ds.len(),
{
    if ds.len() > 0 {
        lemma_usable_at_bounds(ds.drop_last(), since);
        let r = usable_at(ds.drop_last(), since);
        assert forall|k: int| 0 <= k < usable_at(ds, since).len() implies 0
            <= #[trigger] usable_at(ds, since)[k] < ds.len() by {
            if k < r.len() {
                assert(usable_at(ds, since)[k] == r[k]);
            }
        }
    }
}

/// Which symbols enter a returns matrix and over which days. `days[i]` is the sorted list of
/// days on which `want[i]` has a close in base currency, or `None` when it has no history or no
/// exchange rate to convert it with; `since` starts the window, or is empty for none.
///
/// The window is chosen before the symbols are, not after: a symbol that does not reach back to
/// the start of the window is left out and named, and the window survives.
pub fn plan_matrix(want: &[String], days: &[Option<Vec<String>>], since: &str) -> (r: Plan)
    requires
        want@.len() == days@.len(),
    ensures
        ({
            let (at, ds, out) = plan_of(texts(want@), day_lists(days@), since@);
            &&& r.kept@.map_values(|i: usize| i as int) == at
            &&& texts(r.days@) == ds
            &&& texts(r.excluded@) == out
        }),
{
    let s = chars_of(since);
    let ghost w = texts(want@);
    let ghost dl = day_lists(days@);
    let mut kept: Vec<usize> = Vec::new();
    let mut windows: Vec<Vec<String>> = Vec::new();
    let mut excluded: Vec<String> = Vec::new();
    let mut i: usize = 0;
    while i < days.len()
        invariant
            i <= days@.len(),
            want@.len() == days@.len(),
            w == texts(want@),
            dl == day_lists(days@),
            s@ == since@,
            kept@.map_values(|i: usize| i as int) == usable_at(dl.take(i as int), since@),
            forall|k: int| 0 <= k < kept@.len() ==> #[trigger] kept@[k] < i,
            window_views(windows@) == windows_at(
                dl,
                kept@.map_values(|i: usize| i as int),
                since@,
            ),
            texts(excluded@) == unusable_of(w.take(i as int), dl.take(i as int), since@),
        decreases days@.len() - i,
    {
        proof {
            lemma_prefix_step(w, dl, since@, i as int);
            assert(dl[i as int] == opt_days(days@[i as int]));
            assert(w[i as int] == want@[i as int]@);
        }
        let ghost kb = kept@;
        let ghost wb = windows@;
        let ghost eb = excluded@;
        match entering(&days[i], &s) {
            Some(win) => {
                kept.push(i);
                windows.push(win);
                proof {
                    assert(kept@.map_values(|i: usize| i as int) =~= kb.map_values(
                        |i: usize| i as int,
                    ).push(i as int));
                    assert(window_views(windows@) =~= window_views(wb).push(texts(win@)));
                    let at = kept@.map_values(|i: usize| i as int);
                    assert(at.drop_last() =~= kb.map_values(|i: usize| i as int));
                    assert(at.last() == i as int);
                }
            },
            None => {
                excluded.push(want[i].clone());
                assert(texts(excluded@) =~= texts(eb).push(want@[i as int]@));
            },
        }
        i += 1;
    }
    proof {
        assert(dl.take(i as int) =~= dl);
        assert(w.take(i as int) =~= w);
    }
    if kept.len() == 0 {
        let r = Plan { kept: Vec::new(), days: Vec::new(), excluded };
        assert(r.kept@.map_values(|i: usize| i as int) =~= Seq::<int>::empty());
        assert(texts(r.days@) =~= Seq::<Seq<char>>::empty());
        return r;
    }
    let common_ds = common_days(&windows);
    if common_ds.len() <= MIN_OBS {
        let ghost eb = excluded@;
        let mut k: usize = 0;
        while k < kept.len()
            invariant
                k <= kept@.len(),
                want@.len() == days@.len(),
                w == texts(want@),
                forall|j: int| 0 <= j < kept@.len() ==> #[trigger] kept@[j] < want@.len(),
                texts(excluded@) == texts(eb) + symbols_at(
                    w,
                    kept@.map_values(|i: usize| i as int).take(k as int),
                ),
            decreases kept@.len() - k,
        {
            let ghost at = kept@.map_values(|i: usize| i as int);
            proof {
                assert(at.take(k as int + 1).drop_last() =~= at.take(k as int));
                assert(at.take(k as int + 1).last() == kept@[k as int] as int);
                assert(w[kept@[k as int] as int] == want@[kept@[k as int] as int]@);
            }
            let ghost before = excluded@;
            excluded.push(want[kept[k]].clone());
            assert(texts(excluded@) =~= texts(before).push(want@[kept@[k as int] as int]@));
            k += 1;
        }
        assert(kept@.map_values(|i: usize| i as int).take(k as int) =~= kept@.map_values(
            |i: usize| i as int,
        ));
        let r = Plan { kept: Vec::new(), days: Vec::new(), excluded };
        assert(r.kept@.map_values(|i: usize| i as int) =~= Seq::<int>::empty());
        assert(texts(r.days@) =~= Seq::<Seq<char>>::empty());
        return r;
    }
    Plan { kept, days: common_ds, excluded }
}

// ---------------------------------------------------------------------------------------------
// Which exchange rate values a close.

/// Whether day `a` is on or before day `b`.
pub open spec fn on_or_before(a: Seq<char>, b: Seq<char>) -> bool {
    !text_less(b, a)
}

/// The rate that values a close on `day`: the latest rate day on or before it, filled forward
/// over days the rate is missing, and of several rates on that day the one listed last. `None`
/// when every rate comes after the day, which drops the day rather than valuing it at one.
pub open spec fn rate_for(rates: Seq<Seq<char>>, day: Seq<char>) -> Option<int>
    decreases rates.len(),
{
    if rates.len() == 0 {
        None
    } else {
        let prev = rate_for(rates.drop_last(), day);
        let k = rates.len() - 1;
        if on_or_before(rates[k], day) {
            match prev {
                None => Some(k),
                Some(j) => if text_less(rates[k], rates[j]) {
                    Some(j)
                } else {
                    Some(k)
                },
            }
        } else {
            prev
        }
    }
}

pub open spec fn char_rows(v: Seq<Vec<char>>) -> Seq<Seq<char>> {
    v.map_values(|w: Vec<char>| w@)
}

fn rate_in(rates: &Vec<Vec<char>>, d: &Vec<char>) -> (r: Option<usize>)
    ensures
        match rate_for(char_rows(rates@), d@) {
            Some(j) => r == Some(j as usize),
            None => r is None,
        },
{
    let ghost rs = char_rows(rates@);
    let mut best: Option<usize> = None;
    let mut i: usize = 0;
    while i < rates.len()
        invariant
            i <= rates@.len(),
            rs == char_rows(rates@),
            match rate_for(rs.take(i as int), d@) {
                Some(j) => best == Some(j as usize) && 0 <= j < i,
                None => best is None,
            },
        decreases rates@.len() - i,
    {
        let ghost t = rs.take(i as int + 1);
        proof {
            assert(t.drop_last() =~= rs.take(i as int));
            assert(t[i as int] == rates@[i as int]@);
        }
        if !text_before(d.as_slice(), rates[i].as_slice()) {
            match best {
                None => {
                    best = Some(i);
                },
                Some(j) => {
                    assert(rs[j as int] == rates@[j as int]@);
                    assert(t[j as int] == rs[j as int]);
                    if !text_before(rates[i].as_slice(), rates[j].as_slice()) {
                        best = Some(i);
                    }
                },
            }
        }
        i += 1;
    }
    assert(rs.take(i as int) =~= rs);
    best
}

/// For each day, the index of the rate that values a close on it, among rates listed with their
/// days: `rate_for` of each day.
pub fn rate_indices(rates: &[String], days: &[String]) -> (r: Vec<Option<usize>>)
    ensures
        r@.len() == days@.len(),
        forall|i: int|
            0 <= i < days@.len() ==> match rate_for(texts(rates@), #[trigger] days@[i]@) {
                Some(j) => r@[i] == Some(j as usize),
                None => r@[i] is None,
            },
{
    let mut rs: Vec<Vec<char>> = Vec::new();
    let mut k: usize = 0;
    while k < rates.len()
        invariant
            k <= rates@.len(),
            char_rows(rs@) == texts(rates@).take(k as int),
        decreases rates@.len() - k,
    {
        let ghost before = rs@;
        rs.push(chars_of(rates[k].as_str()));
        assert(char_rows(rs@) =~= char_rows(before).push(rates@[k as int]@));
        assert(texts(rates@).take(k as int + 1) =~= texts(rates@).take(k as int).push(
            rates@[k as int]@,
        ));
        k += 1;
    }
    assert(texts(rates@).take(k as int) =~= texts(rates@));
    let mut r: Vec<Option<usize>> = Vec::new();
    let mut i: usize = 0;
    while i < days.len()
        invariant
            i <= days@.len(),
            r@.len() == i,
            char_rows(rs@) == texts(rates@),
            forall|m: int|
                0 <= m < i ==> match rate_for(texts(rates@), #[trigger] days@[m]@) {
                    Some(j) => r@[m] == Some(j as usize),
                    None => r@[m] is None,
                },
        decreases days@.len() - i,
    {
        let d = chars_of(days[i].as_str());
        r.push(rate_in(&rs, &d));
        i += 1;
    }
    r
}

/// The rate used for a day is on or before it, no later rate day is on or before it, and of
/// several rates on that day it is the last; with no rate on or before the day there is none.
pub proof fn law_the_latest_rate_on_or_before_the_day_is_used(rates: Seq<Seq<char>>, day: Seq<char>)
    ensures
        match rate_for(rates, day) {
            Some(j) => {
                &&& 0 <= j < rates.len()
                &&& on_or_before(rates[j], day)
                &&& forall|m: int|
                    0 <= m < rates.len() && on_or_before(#[trigger] rates[m], day) ==> {
                        &&& !text_less(rates[j], rates[m])
                        &&& (m > j ==> text_less(rates[m], rates[j]))
                    }
            },
            None => forall|m: int| 0 <= m < rates.len() ==> !on_or_before(#[trigger] rates[m], day),
        },
    decreases rates.len(),
{
    if rates.len() > 0 {
        let init = rates.drop_last();
        law_the_latest_rate_on_or_before_the_day_is_used(init, day);
        let k = rates.len() - 1;
        let last = rates[k];
        assert forall|m: int| 0 <= m < init.len() implies init[m] == rates[m] by {}
        match rate_for(init, day) {
            None => {
                if on_or_before(last, day) {
                    lemma_text_less_irreflexive(last);
                    assert forall|m: int|
                        0 <= m < rates.len() && on_or_before(#[trigger] rates[m], day) implies {
                        &&& !text_less(rates[k], rates[m])
                        &&& (m > k ==> text_less(rates[m], rates[k]))
                    } by {
                        if m < k {
                            assert(init[m] == rates[m]);
                        }
                    }
                } else {
                    assert forall|m: int| 0 <= m < rates.len() implies !on_or_before(
                        #[trigger] rates[m],
                        day,
                    ) by {
                        if m < k {
                            assert(init[m] == rates[m]);
                        }
                    }
                }
            },
            Some(j) => {
                let bj = rates[j];
                assert(init[j] == bj);
                if on_or_before(last, day) && !text_less(last, bj) {
                    lemma_text_less_irreflexive(last);
                    assert forall|m: int|
                        0 <= m < rates.len() && on_or_before(#[trigger] rates[m], day) implies {
                        &&& !text_less(rates[k], rates[m])
                        &&& (m > k ==> text_less(rates[m], rates[k]))
                    } by {
                        if m < k {
                            assert(init[m] == rates[m]);
                            assert(!text_less(bj, rates[m]));
                            if text_less(last, rates[m]) {
                                lemma_text_less_total(last, bj);
                                if text_less(bj, last) {
                                    lemma_text_less_transitive(bj, last, rates[m]);
                                }
                            }
                        }
                    }
                } else {
                    assert forall|m: int|
                        0 <= m < rates.len() && on_or_before(#[trigger] rates[m], day) implies {
                        &&& !text_less(rates[j], rates[m])
                        &&& (m > j ==> text_less(rates[m], rates[j]))
                    } by {
                        if m < k {
                            assert(init[m] == rates[m]);
                        } else {
                            assert(m == k);
                            lemma_text_less_irreflexive(last);
                            if text_less(bj, last) {
                                lemma_text_less_transitive(last, bj, last);
                            }
                        }
                    }
                }
            },
        }
    }
}

} // verus!
