//! The ranking stage: per tag, the most recent photos, and the set of all
//! photos that some tag keeps.
use vstd::prelude::*;
use std::collections::{HashMap, HashSet};
use crate::compact::records_view;
use crate::geotag::{row_of, GeoTag, GeoTagView};

verus! {

broadcast use vstd::std_specs::hash::group_hash_axioms;

/// How many ids each tag keeps.
pub const ENTRY_COUNT: usize = 100;

/// Position `x` goes ahead of position `y`: a later capture time, or the
/// same time and an earlier place in the list.
pub open spec fn ahead(times: Seq<i32>, x: int, y: int) -> bool {
    times[x] > times[y] || (times[x] == times[y] && x < y)
}

/// `order` lists the positions below `n`, each once, most recent first and
/// equal times in list order.
pub open spec fn recency_order_upto(times: Seq<i32>, order: Seq<int>, n: int) -> bool {
    &&& order.len() == n
    &&& forall|k: int| 0 <= k < order.len() ==> 0 <= #[trigger] order[k] < n
    &&& forall|a: int, b: int| 0 <= a < b < order.len() ==> ahead(times, order[a], order[b])
}

/// `order` lists every position of `times` once, most recent first and
/// equal times in list order.
pub open spec fn recency_order(times: Seq<i32>, order: Seq<int>) -> bool {
    recency_order_upto(times, order, times.len() as int)
}

proof fn lemma_sorted_unique(times: Seq<i32>, o1: Seq<int>, o2: Seq<int>)
    requires
        forall|k: int| 0 <= k < o1.len() ==> 0 <= #[trigger] o1[k] < times.len(),
        forall|k: int| 0 <= k < o2.len() ==> 0 <= #[trigger] o2[k] < times.len(),
        forall|a: int, b: int| 0 <= a < b < o1.len() ==> ahead(times, o1[a], o1[b]),
        forall|a: int, b: int| 0 <= a < b < o2.len() ==> ahead(times, o2[a], o2[b]),
        o1.to_set() == o2.to_set(),
    ensures
        o1 == o2,
    decreases o1.len(),
{
    if o1.len() == 0 {
        if o2.len() > 0 {
            assert(o2.to_set().contains(o2[0]));
        }
        assert(o1 =~= o2);
    } else {
        assert(o1.to_set().contains(o1[0]));
        assert(o2.len() > 0);
        assert(o2.to_set().contains(o2[0]));
        let i = choose|i: int| 0 <= i < o1.len() && o1[i] == o2[0];
        let j = choose|j: int| 0 <= j < o2.len() && o2[j] == o1[0];
        if i > 0 && j > 0 {
            assert(ahead(times, o1[0], o1[i]));
            assert(ahead(times, o2[0], o2[j]));
        }
        assert(o1[0] == o2[0]);
        let r1 = o1.drop_first();
        let r2 = o2.drop_first();
        assert forall|v: int| r1.to_set().contains(v) <==> r2.to_set().contains(v) by {
            if r1.contains(v) {
                let a = choose|a: int| 0 <= a < r1.len() && r1[a] == v;
                assert(o1[a + 1] == v);
                assert(ahead(times, o1[0], o1[a + 1]));
                assert(o1.contains(v));
                assert(o1.to_set().contains(v));
                assert(o2.to_set().contains(v));
                let b = choose|b: int| 0 <= b < o2.len() && o2[b] == v;
                if b == 0 {
                    assert(o1[0] == v);
                }
                assert(r2[b - 1] == v);
            }
            if r2.contains(v) {
                let b = choose|b: int| 0 <= b < r2.len() && r2[b] == v;
                assert(o2[b + 1] == v);
                assert(ahead(times, o2[0], o2[b + 1]));
                assert(o2.contains(v));
                assert(o2.to_set().contains(v));
                assert(o1.to_set().contains(v));
                let a = choose|a: int| 0 <= a < o1.len() && o1[a] == v;
                if a == 0 {
                    assert(o2[0] == v);
                }
                assert(r1[a - 1] == v);
            }
        }
        assert(r1.to_set() =~= r2.to_set());
        lemma_sorted_unique(times, r1, r2);
        assert(o1 =~= seq![o1[0]] + r1);
        assert(o2 =~= seq![o2[0]] + r2);
    }
}

/// There is one recency order of `times`, so `is_top_recent` fixes its list.
pub proof fn lemma_recency_order_unique(times: Seq<i32>, o1: Seq<int>, o2: Seq<int>)
    requires
        recency_order(times, o1),
        recency_order(times, o2),
    ensures
        o1 == o2,
{
    let n = times.len() as int;
    let range = vstd::set_lib::set_int_range(0, n);
    vstd::set_lib::lemma_int_range(0, n);
    assert forall|o: Seq<int>| #[trigger] recency_order(times, o) implies o.to_set() == range by {
        assert(o.no_duplicates()) by {
            assert forall|a: int, b: int| 0 <= a < o.len() && 0 <= b < o.len() && a != b implies o[a]
                != o[b] by {
                if a < b {
                    assert(ahead(times, o[a], o[b]));
                } else {
                    assert(ahead(times, o[b], o[a]));
                }
            }
        }
        o.unique_seq_to_set();
        assert(o.to_set().subset_of(range)) by {
            assert forall|v: int| o.to_set().contains(v) implies range.contains(v) by {
                let k = choose|k: int| 0 <= k < o.len() && o[k] == v;
            }
        }
        vstd::seq_lib::seq_to_set_is_finite(o);
        vstd::set_lib::lemma_subset_equality(o.to_set(), range);
    }
    lemma_sorted_unique(times, o1, o2);
}

/// The ids at the first `limit` positions of `order`.
pub open spec fn leading_ids(order: Seq<int>, ids: Seq<u64>, limit: nat) -> Seq<u64> {
    let m = if order.len() <= limit {
        order.len()
    } else {
        limit
    };
    order.take(m as int).map_values(|p: int| ids[p])
}

/// `r` holds the ids of the `limit` most recent positions, most recent
/// first, equal times in list order.
pub open spec fn is_top_recent(r: Seq<u64>, ids: Seq<u64>, times: Seq<i32>, limit: nat) -> bool {
    exists|order: Seq<int>| recency_order(times, order) && r == leading_ids(order, ids, limit)
}

/// The first place in `full` from `k` on whose position does not go ahead
/// of `i`.
pub open spec fn first_behind(times: Seq<i32>, full: Seq<int>, i: int, k: int) -> int
    decreases full.len() - k,
{
    if k < 0 || k >= full.len() {
        full.len() as int
    } else if !ahead(times, full[k], i) {
        k
    } else {
        first_behind(times, full, i, k + 1)
    }
}

proof fn lemma_first_behind(times: Seq<i32>, full: Seq<int>, i: int, k: int)
    requires
        0 <= k <= full.len(),
    ensures
        k <= first_behind(times, full, i, k) <= full.len(),
        forall|j: int| k <= j < first_behind(times, full, i, k) ==> ahead(times, full[j], i),
        first_behind(times, full, i, k) < full.len() ==> !ahead(
            times,
            full[first_behind(times, full, i, k)],
            i,
        ),
    decreases full.len() - k,
{
    if k < full.len() && ahead(times, full[k], i) {
        lemma_first_behind(times, full, i, k + 1);
    }
}

/// Placing position `i` where the positions stop going ahead of it keeps
/// the order.
proof fn lemma_insert_in_order(times: Seq<i32>, full: Seq<int>, i: int, q: int)
    requires
        0 <= i < times.len(),
        recency_order_upto(times, full, i),
        0 <= q <= full.len(),
        forall|j: int| 0 <= j < q ==> ahead(times, full[j], i),
        q < full.len() ==> !ahead(times, full[q], i),
    ensures
        recency_order_upto(times, full.insert(q, i), i + 1),
{
    let f2 = full.insert(q, i);
    assert forall|a: int, b: int| 0 <= a < b < f2.len() implies ahead(times, f2[a], f2[b]) by {
        if b < q {
            assert(f2[a] == full[a] && f2[b] == full[b]);
        } else if b == q {
            assert(f2[a] == full[a]);
        } else if a == q {
            assert(f2[b] == full[b - 1]);
            assert(full[q] < i && full[b - 1] < i);
            if b - 1 > q {
                assert(ahead(times, full[q], full[b - 1]));
            }
        } else if a < q {
            assert(f2[a] == full[a] && f2[b] == full[b - 1]);
        } else {
            assert(f2[a] == full[a - 1] && f2[b] == full[b - 1]);
        }
    }
    assert forall|k: int| 0 <= k < f2.len() implies 0 <= #[trigger] f2[k] < i + 1 by {
        if k < q {
            assert(f2[k] == full[k]);
        } else if k > q {
            assert(f2[k] == full[k - 1]);
        }
    }
}

/// The ids of the `limit` most recent positions of `ids`, where `times`
/// gives each position's capture time: most recent first, equal times in
/// list order.
pub fn top_recent(ids: &Vec<u64>, times: &Vec<i32>, limit: usize) -> (r: Vec<u64>)
    requires
        ids.len() == times.len(),
    ensures
        is_top_recent(r@, ids@, times@, limit as nat),
{
    let ghost t = times@;
    let ghost mut full: Seq<int> = Seq::empty();
    let mut buf: Vec<usize> = Vec::new();
    let mut i: usize = 0;
    while i < times.len()
        invariant
            i <= times.len() == ids.len(),
            t == times@,
            recency_order_upto(t, full, i as int),
            buf.len() <= limit,
            buf.len() == if i <= limit {
                i as int
            } else {
                limit as int
            },
            forall|k: int| 0 <= k < buf.len() ==> #[trigger] buf@[k] as int == full[k],
        decreases times.len() - i,
    {
        let ti = times[i];
        let mut q: usize = 0;
        while q < buf.len() && times[buf[q]] >= ti
            invariant
                q <= buf.len(),
                i < times.len(),
                t == times@,
                ti == t[i as int],
                recency_order_upto(t, full, i as int),
                buf.len() <= full.len(),
                forall|k: int| 0 <= k < buf.len() ==> #[trigger] buf@[k] as int == full[k],
                forall|k: int| 0 <= k < q ==> ahead(t, full[k], i as int),
            decreases buf.len() - q,
        {
            assert(full[q as int] < i);
            q = q + 1;
        }
        let ghost qq: int = if q < buf.len() {
            q as int
        } else {
            first_behind(t, full, i as int, buf.len() as int)
        };
        proof {
            if q < buf.len() {
                assert(full[q as int] < i);
            } else {
                lemma_first_behind(t, full, i as int, buf.len() as int);
            }
            lemma_insert_in_order(t, full, i as int, qq);
        }
        let ghost old_buf = buf@;
        let ghost old_full = full;
        proof {
            full = full.insert(qq, i as int);
        }
        if q < limit {
            buf.insert(q, i);
            if buf.len() > limit {
                buf.truncate(limit);
            }
        }
        proof {
            assert forall|k: int| 0 <= k < buf.len() implies #[trigger] buf@[k] as int == full[k] by {
                if k < q {
                    assert(buf@[k] == old_buf[k]);
                    assert(full[k] == old_full[k]);
                } else if k == q {
                } else {
                    assert(buf@[k] == old_buf[k - 1]);
                    assert(full[k] == old_full[k - 1]);
                }
            }
        }
        i = i + 1;
    }
    let mut r: Vec<u64> = Vec::new();
    let mut k: usize = 0;
    while k < buf.len()
        invariant
            k <= buf.len(),
            ids.len() == times.len(),
            recency_order(t, full),
            t == times@,
            forall|j: int| 0 <= j < buf.len() ==> #[trigger] buf@[j] as int == full[j],
            buf.len() <= full.len(),
            r@ == full.take(k as int).map_values(|p: int| ids@[p]),
        decreases buf.len() - k,
    {
        assert(full[k as int] < ids.len());
        r.push(ids[buf[k]]);
        k = k + 1;
        assert(r@ =~= full.take(k as int).map_values(|p: int| ids@[p]));
    }
    assert(r@ == leading_ids(full, ids@, limit as nat));
    r
}

pub open spec fn strictly_increasing(s: Seq<u64>) -> bool {
    forall|a: int, b: int| 0 <= a < b < s.len() ==> s[a] < s[b]
}

proof fn lemma_cons_set(x: u64, s: Seq<u64>)
    ensures
        (seq![x] + s).to_set() == s.to_set().insert(x),
{
    let c = seq![x] + s;
    assert forall|v: u64| c.to_set().contains(v) <==> s.to_set().insert(x).contains(v) by {
        if c.contains(v) {
            let k = choose|k: int| 0 <= k < c.len() && c[k] == v;
            if k > 0 {
                assert(s[k - 1] == v);
            }
        }
        if s.contains(v) {
            let k = choose|k: int| 0 <= k < s.len() && s[k] == v;
            assert(c[k + 1] == v);
        }
        if v == x {
            assert(c[0] == v);
        }
    }
    assert(c.to_set() =~= s.to_set().insert(x));
}

proof fn lemma_push_set(s: Seq<u64>, x: u64)
    ensures
        s.push(x).to_set() == s.to_set().insert(x),
{
    let c = s.push(x);
    assert forall|v: u64| c.to_set().contains(v) <==> s.to_set().insert(x).contains(v) by {
        if c.contains(v) {
            let k = choose|k: int| 0 <= k < c.len() && c[k] == v;
            if k < s.len() {
                assert(s[k] == v);
            }
        }
        if s.contains(v) {
            let k = choose|k: int| 0 <= k < s.len() && s[k] == v;
            assert(c[k] == v);
        }
        if v == x {
            assert(c[s.len() as int] == v);
        }
    }
    assert(c.to_set() =~= s.to_set().insert(x));
}

/// Merges two strictly increasing lists into the strictly increasing list
/// of the ids of either.
fn union_merge(a: &Vec<u64>, b: &Vec<u64>) -> (r: Vec<u64>)
    requires
        strictly_increasing(a@),
        strictly_increasing(b@),
    ensures
        strictly_increasing(r@),
        r@.to_set() == a@.to_set() + b@.to_set(),
{
    let mut out: Vec<u64> = Vec::new();
    let mut i: usize = 0;
    let mut j: usize = 0;
    assert(a@.skip(0) =~= a@);
    assert(b@.skip(0) =~= b@);
    assert(out@.to_set() =~= Set::<u64>::empty());
    assert(out@.to_set() + a@.to_set() + b@.to_set() =~= a@.to_set() + b@.to_set());
    while i < a.len() || j < b.len()
        invariant
            i <= a.len(),
            j <= b.len(),
            strictly_increasing(a@),
            strictly_increasing(b@),
            strictly_increasing(out@),
            forall|x: int, y: int| 0 <= x < out.len() && i <= y < a.len() ==> out@[x] < a@[y],
            forall|x: int, y: int| 0 <= x < out.len() && j <= y < b.len() ==> out@[x] < b@[y],
            out@.to_set() + a@.skip(i as int).to_set() + b@.skip(j as int).to_set() == a@.to_set()
                + b@.to_set(),
        decreases a.len() + b.len() - i - j,
    {
        let ghost before = out@;
        let ghost sa = a@.skip(i as int);
        let ghost sb = b@.skip(j as int);
        if j == b.len() || (i < a.len() && a[i] <= b[j]) {
            let x = a[i];
            out.push(x);
            if j < b.len() && b[j] == x {
                j = j + 1;
                assert(sb =~= seq![x] + b@.skip(j as int));
            }
            i = i + 1;
            assert(sa =~= seq![x] + a@.skip(i as int));
        } else {
            let x = b[j];
            out.push(x);
            j = j + 1;
            assert(sb =~= seq![x] + b@.skip(j as int));
        }
        assert(out@ == before.push(out@.last()));
        proof {
            let x = out@.last();
            lemma_cons_set(x, a@.skip(i as int));
            lemma_cons_set(x, b@.skip(j as int));
            lemma_push_set(before, x);
            assert(out@.to_set() + a@.skip(i as int).to_set() + b@.skip(j as int).to_set()
                =~= a@.to_set() + b@.to_set());
        }
    }
    assert(a@.skip(i as int) =~= Seq::<u64>::empty());
    assert(b@.skip(j as int) =~= Seq::<u64>::empty());
    assert(out@.to_set() =~= a@.to_set() + b@.to_set());
    out
}

proof fn lemma_split_set(s: Seq<u64>, lo: int, mid: int, hi: int)
    requires
        0 <= lo <= mid <= hi <= s.len(),
    ensures
        s.subrange(lo, hi).to_set() == s.subrange(lo, mid).to_set() + s.subrange(mid, hi).to_set(),
{
    let w = s.subrange(lo, hi);
    let l = s.subrange(lo, mid);
    let r = s.subrange(mid, hi);
    assert forall|v: u64| w.to_set().contains(v) <==> (l.to_set() + r.to_set()).contains(v) by {
        if w.contains(v) {
            let k = choose|k: int| 0 <= k < w.len() && w[k] == v;
            if k < mid - lo {
                assert(l[k] == v);
            } else {
                assert(r[k - (mid - lo)] == v);
            }
        }
        if l.contains(v) {
            let k = choose|k: int| 0 <= k < l.len() && l[k] == v;
            assert(w[k] == v);
        }
        if r.contains(v) {
            let k = choose|k: int| 0 <= k < r.len() && r[k] == v;
            assert(w[k + (mid - lo)] == v);
        }
    }
    assert(w.to_set() =~= l.to_set() + r.to_set());
}

/// The ids of `all[lo..hi]`, each once, ascending.
fn union_range(all: &Vec<u64>, lo: usize, hi: usize) -> (r: Vec<u64>)
    requires
        lo <= hi <= all.len(),
    ensures
        strictly_increasing(r@),
        r@.to_set() == all@.subrange(lo as int, hi as int).to_set(),
    decreases hi - lo,
{
    if hi - lo <= 1 {
        let mut r: Vec<u64> = Vec::new();
        if hi - lo == 1 {
            r.push(all[lo]);
        }
        assert(r@ =~= all@.subrange(lo as int, hi as int));
        r
    } else {
        let mid = lo + (hi - lo) / 2;
        let a = union_range(all, lo, mid);
        let b = union_range(all, mid, hi);
        proof {
            lemma_split_set(all@, lo as int, mid as int, hi as int);
        }
        union_merge(&a, &b)
    }
}

/// Where each id's last row stands.
pub open spec fn row_index(rows: Seq<(u64, GeoTagView)>) -> Map<u64, usize>
    decreases rows.len(),
{
    if rows.len() == 0 {
        Map::empty()
    } else {
        row_index(rows.drop_last()).insert(rows.last().0, (rows.len() - 1) as usize)
    }
}

proof fn lemma_row_index(rows: Seq<(u64, GeoTagView)>, x: u64)
    requires
        row_index(rows).contains_key(x),
        rows.len() <= usize::MAX,
    ensures
        row_index(rows)[x] < rows.len(),
        rows[row_index(rows)[x] as int].0 == x,
    decreases rows.len(),
{
    if rows.len() > 0 && rows.last().0 != x {
        lemma_row_index(rows.drop_last(), x);
        let k = row_index(rows.drop_last())[x];
        assert(rows[k as int] == rows.drop_last()[k as int]);
    }
}

/// The capture time of the last row of `x`.
pub open spec fn time_in(rows: Seq<(u64, GeoTagView)>, x: u64) -> i32 {
    rows[row_index(rows)[x] as int].1.time
}

/// The ids of `ids` that have a row, in order.
pub open spec fn present_ids(ids: Seq<u64>, known: Set<u64>) -> Seq<u64>
    decreases ids.len(),
{
    if ids.len() == 0 {
        Seq::empty()
    } else if known.contains(ids.last()) {
        present_ids(ids.drop_last(), known).push(ids.last())
    } else {
        present_ids(ids.drop_last(), known)
    }
}

/// The ids of `ids` without a row, in order.
pub open spec fn missing_ids(ids: Seq<u64>, known: Set<u64>) -> Seq<u64>
    decreases ids.len(),
{
    if ids.len() == 0 {
        Seq::empty()
    } else if known.contains(ids.last()) {
        missing_ids(ids.drop_last(), known)
    } else {
        missing_ids(ids.drop_last(), known).push(ids.last())
    }
}

proof fn lemma_present_known(ids: Seq<u64>, known: Set<u64>)
    ensures
        forall|k: int|
            0 <= k < present_ids(ids, known).len() ==> known.contains(
                #[trigger] present_ids(ids, known)[k],
            ),
        forall|k: int|
            0 <= k < present_ids(ids, known).len() ==> ids.contains(
                #[trigger] present_ids(ids, known)[k],
            ),
    decreases ids.len(),
{
    if ids.len() > 0 {
        let d = ids.drop_last();
        lemma_present_known(d, known);
        let p = present_ids(ids, known);
        assert forall|k: int| 0 <= k < p.len() implies ids.contains(#[trigger] p[k]) by {
            if k < present_ids(d, known).len() {
                let v = p[k];
                assert(d.contains(v));
                let j = choose|j: int| 0 <= j < d.len() && d[j] == v;
                assert(ids[j] == v);
            } else {
                assert(ids[ids.len() - 1] == p[k]);
            }
        }
    }
}

/// The ids that `r` ranks come from `ids`.
pub proof fn lemma_top_recent_within(r: Seq<u64>, ids: Seq<u64>, times: Seq<i32>, limit: nat)
    requires
        is_top_recent(r, ids, times, limit),
        ids.len() == times.len(),
    ensures
        r.len() <= limit,
        r.len() <= ids.len(),
        forall|k: int| 0 <= k < r.len() ==> ids.contains(#[trigger] r[k]),
{
    let order = choose|order: Seq<int>| recency_order(times, order) && r == leading_ids(order, ids, limit);
    assert forall|k: int| 0 <= k < r.len() implies ids.contains(#[trigger] r[k]) by {
        assert(r[k] == ids[order[k]]);
    }
}

/// A tag's kept ids, and those of its ids that have no row.
pub struct RankedTag {
    pub name: String,
    pub ids: Vec<u64>,
    pub missing: Vec<u64>,
}

/// What the ranking stage writes: each tag's kept ids, all kept ids once
/// each in ascending order, and the row of each of those.
pub struct Ultimate {
    pub tags: Vec<RankedTag>,
    pub ids: Vec<u64>,
    pub rows: Vec<String>,
}

impl Ultimate {
    /// `ids` holds each id that some tag keeps, once, in ascending order.
    pub open spec fn gathers_kept_ids(&self) -> bool {
        &&& strictly_increasing(self.ids@)
        &&& forall|x: u64|
            self.ids@.contains(x) <==> exists|k: int|
                0 <= k < self.tags.len() && (#[trigger] self.tags@[k]).ids@.contains(x)
    }
}

/// `r` ranks the ids `ids` of one tag against the rows `rows`.
pub open spec fn ranks_tag(r: RankedTag, name: Seq<char>, ids: Seq<u64>, rows: Seq<(u64, GeoTagView)>) -> bool {
    let known = row_index(rows).dom();
    let present = present_ids(ids, known);
    &&& r.name@ == name
    &&& r.missing@ == missing_ids(ids, known)
    &&& is_top_recent(
        r.ids@,
        present,
        present.map_values(|x: u64| time_in(rows, x)),
        ENTRY_COUNT as nat,
    )
}

fn rank_one(ids: &Vec<u64>, rows: &Vec<(u64, GeoTag)>, idx: &HashMap<u64, usize>) -> (r: (
    Vec<u64>,
    Vec<u64>,
))
    requires
        idx@ == row_index(records_view(rows@)),
    ensures
        ({
            let rv = records_view(rows@);
            let known = row_index(rv).dom();
            let present = present_ids(ids@, known);
            &&& r.1@ == missing_ids(ids@, known)
            &&& is_top_recent(
                r.0@,
                present,
                present.map_values(|x: u64| time_in(rv, x)),
                ENTRY_COUNT as nat,
            )
        }),
{
    let ghost rv = records_view(rows@);
    let ghost known = row_index(rv).dom();
    let mut present: Vec<u64> = Vec::new();
    let mut times: Vec<i32> = Vec::new();
    let mut missing: Vec<u64> = Vec::new();
    let nrows = rows.len();
    let mut k: usize = 0;
    while k < ids.len()
        invariant
            k <= ids.len(),
            rv.len() == nrows,
            idx@ == row_index(rv),
            rv == records_view(rows@),
            known == row_index(rv).dom(),
            present@ == present_ids(ids@.take(k as int), known),
            times@ == present@.map_values(|x: u64| time_in(rv, x)),
            missing@ == missing_ids(ids@.take(k as int), known),
        decreases ids.len() - k,
    {
        let x = ids[k];
        assert(ids@.take(k + 1).drop_last() =~= ids@.take(k as int));
        assert(ids@.take(k + 1).last() == x);
        match idx.get(&x) {
            Some(p) => {
                proof {
                    assert(rv.len() == rows@.len());
                    lemma_row_index(rv, x);
                }
                let ghost before = present@;
                present.push(x);
                times.push(rows[*p].1.time);
                assert(times@ =~= present@.map_values(|x: u64| time_in(rv, x)));
            },
            None => {
                missing.push(x);
            },
        }
        k = k + 1;
    }
    assert(ids@.take(k as int) =~= ids@);
    (top_recent(&present, &times, ENTRY_COUNT), missing)
}

/// Where the row of `x` stands.
fn row_of_id(idx: &HashMap<u64, usize>, x: u64) -> (r: usize)
    requires
        idx@.contains_key(x),
    ensures
        r == idx@[x],
{
    match idx.get(&x) {
        Some(p) => *p,
        None => 0,
    }
}

/// Ranks every tag's ids by recency against the rows, keeps the first
/// `ENTRY_COUNT` of each, and gathers the kept ids with their rows. Ids
/// without a row take no part in the ranking; they are reported per tag.
/// When an id has several rows, the last one counts.
pub fn ultimate(tags: &Vec<(String, Vec<u64>)>, rows: &Vec<(u64, GeoTag)>) -> (r: Ultimate)
    requires
        forall|k: int| 0 <= k < rows.len() ==> (#[trigger] rows@[k]).1@.wf(),
    ensures
        r.tags.len() == tags.len(),
        forall|k: int|
            0 <= k < tags.len() ==> ranks_tag(
                #[trigger] r.tags@[k],
                tags@[k].0@,
                tags@[k].1@,
                records_view(rows@),
            ),
        r.gathers_kept_ids(),
        r.rows.len() == r.ids.len(),
        forall|a: int|
            0 <= a < r.ids.len() ==> row_index(records_view(rows@)).contains_key(
                #[trigger] r.ids@[a],
            ) && r.rows@[a]@ == row_of(
                r.ids@[a],
                records_view(rows@)[row_index(records_view(rows@))[r.ids@[a]] as int].1,
            ),
{
    let ghost rv = records_view(rows@);
    let mut idx: HashMap<u64, usize> = HashMap::new();
    let mut i: usize = 0;
    while i < rows.len()
        invariant
            i <= rows.len(),
            rv == records_view(rows@),
            idx@ == row_index(rv.take(i as int)),
        decreases rows.len() - i,
    {
        assert(rv.take(i + 1).drop_last() =~= rv.take(i as int));
        idx.insert(rows[i].0, i);
        i = i + 1;
    }
    assert(rv.take(i as int) =~= rv);
    let mut ranked: Vec<RankedTag> = Vec::new();
    let mut all: Vec<u64> = Vec::new();
    let mut k: usize = 0;
    while k < tags.len()
        invariant
            k <= tags.len(),
            rv == records_view(rows@),
            idx@ == row_index(rv),
            ranked.len() == k,
            forall|j: int| 0 <= j < k ==> ranks_tag(#[trigger] ranked@[j], tags@[j].0@, tags@[j].1@, rv),
            forall|x: u64|
                all@.contains(x) <==> exists|j: int|
                    0 <= j < ranked.len() && (#[trigger] ranked@[j]).ids@.contains(x),
            forall|j: int| 0 <= j < all.len() ==> row_index(rv).contains_key(#[trigger] all@[j]),
        decreases tags.len() - k,
    {
        let (kept, missing) = rank_one(&tags[k].1, rows, &idx);
        let ghost known = row_index(rv).dom();
        let ghost present = present_ids(tags@[k as int].1@, known);
        proof {
            lemma_present_known(tags@[k as int].1@, known);
            lemma_top_recent_within(
                kept@,
                present,
                present.map_values(|x: u64| time_in(rv, x)),
                ENTRY_COUNT as nat,
            );
        }
        let ghost before_all = all@;
        let ghost before_ranked = ranked@;
        let mut t: usize = 0;
        while t < kept.len()
            invariant
                t <= kept.len(),
                all@ == before_all + kept@.take(t as int),
                forall|j: int| 0 <= j < kept.len() ==> row_index(rv).contains_key(#[trigger] kept@[j]),
                forall|j: int| 0 <= j < before_all.len() ==> row_index(rv).contains_key(#[trigger] before_all[j]),
            decreases kept.len() - t,
        {
            all.push(kept[t]);
            t = t + 1;
            assert(all@ =~= before_all + kept@.take(t as int));
        }
        assert(kept@.take(t as int) =~= kept@);
        let name = tags[k].0.clone();
        ranked.push(RankedTag { name, ids: kept, missing });
        proof {
            assert forall|j: int| 0 <= j < all.len() implies row_index(rv).contains_key(#[trigger] all@[j]) by {
                if j >= before_all.len() {
                    assert(all@[j] == kept@[j - before_all.len()]);
                }
            }
            assert forall|x: u64|
                all@.contains(x) <==> exists|j: int|
                    0 <= j < ranked.len() && (#[trigger] ranked@[j]).ids@.contains(x) by {
                if all@.contains(x) {
                    let a = choose|a: int| 0 <= a < all.len() && all@[a] == x;
                    if a < before_all.len() {
                        assert(before_all.contains(x));
                        let j = choose|j: int|
                            0 <= j < before_ranked.len() && (#[trigger] before_ranked[j]).ids@.contains(x);
                        assert(ranked@[j] == before_ranked[j]);
                    } else {
                        assert(kept@[a - before_all.len()] == x);
                        assert(ranked@[k as int].ids@.contains(x));
                    }
                }
                if exists|j: int| 0 <= j < ranked.len() && (#[trigger] ranked@[j]).ids@.contains(x) {
                    let j = choose|j: int| 0 <= j < ranked.len() && (#[trigger] ranked@[j]).ids@.contains(x);
                    if j < k {
                        assert(before_ranked[j] == ranked@[j]);
                        assert(before_all.contains(x));
                        let a = choose|a: int| 0 <= a < before_all.len() && before_all[a] == x;
                        assert(all@[a] == x);
                    } else {
                        let a = choose|a: int| 0 <= a < kept.len() && kept@[a] == x;
                        assert(all@[before_all.len() + a] == x);
                    }
                }
            }
            assert forall|j: int| 0 <= j < k + 1 implies ranks_tag(#[trigger] ranked@[j], tags@[j].0@, tags@[j].1@, rv) by {
                if j < k {
                    assert(ranked@[j] == before_ranked[j]);
                }
            }
        }
        k = k + 1;
    }
    let ids = union_range(&all, 0, all.len());
    assert(all@.subrange(0, all.len() as int) =~= all@);
    let mut lines: Vec<String> = Vec::new();
    let nrows = rows.len();
    let mut a: usize = 0;
    while a < ids.len()
        invariant
            a <= ids.len(),
            rv.len() == nrows,
            rv == records_view(rows@),
            idx@ == row_index(rv),
            forall|k: int| 0 <= k < rows.len() ==> (#[trigger] rows@[k]).1@.wf(),
            ids@.to_set() == all@.to_set(),
            forall|j: int| 0 <= j < all.len() ==> row_index(rv).contains_key(#[trigger] all@[j]),
            lines.len() == a,
            forall|b: int|
                0 <= b < a ==> row_index(rv).contains_key(#[trigger] ids@[b]) && lines@[b]@
                    == row_of(ids@[b], rv[row_index(rv)[ids@[b]] as int].1),
        decreases ids.len() - a,
    {
        let x = ids[a];
        assert(ids@.to_set().contains(x));
        assert(all@.contains(x));
        proof {
            let j = choose|j: int| 0 <= j < all.len() && all@[j] == x;
            assert(row_index(rv).contains_key(all@[j]));
            assert(rv.len() == rows@.len());
            lemma_row_index(rv, x);
        }
        let p = row_of_id(&idx, x);
        lines.push(rows[p].1.to_row(x));
        a = a + 1;
    }
    proof {
        assert forall|x: u64|
            ids@.contains(x) <==> exists|j: int|
                0 <= j < ranked.len() && (#[trigger] ranked@[j]).ids@.contains(x) by {
            assert(ids@.to_set().contains(x) == ids@.contains(x));
            assert(all@.to_set().contains(x) == all@.contains(x));
        }
    }
    Ultimate { tags: ranked, ids, rows: lines }
}

/// `p` gives each id of `kept` a place of its own in `ids`.
pub open spec fn distinct_places(p: Seq<int>, ids: Seq<u64>, kept: Seq<u64>) -> bool {
    &&& p.len() == kept.len()
    &&& forall|k: int| 0 <= k < p.len() ==> 0 <= #[trigger] p[k] < ids.len() && ids[p[k]] == kept[k]
    &&& forall|a: int, b: int| 0 <= a < b < p.len() ==> p[a] != p[b]
}

/// Where each id of `present_ids(ids, known)` stands in `ids`.
proof fn lemma_present_positions(ids: Seq<u64>, known: Set<u64>) -> (q: Seq<int>)
    ensures
        q.len() == present_ids(ids, known).len(),
        forall|k: int|
            0 <= k < q.len() ==> 0 <= #[trigger] q[k] < ids.len() && ids[q[k]] == present_ids(
                ids,
                known,
            )[k],
        forall|a: int, b: int| 0 <= a < b < q.len() ==> q[a] < q[b],
    decreases ids.len(),
{
    if ids.len() == 0 {
        Seq::empty()
    } else {
        let d = ids.drop_last();
        let qd = lemma_present_positions(d, known);
        if known.contains(ids.last()) {
            let q = qd.push(ids.len() - 1);
            assert forall|k: int| 0 <= k < q.len() implies 0 <= #[trigger] q[k] < ids.len() && ids[q[k]]
                == present_ids(ids, known)[k] by {
                if k < qd.len() {
                    assert(ids[qd[k]] == d[qd[k]]);
                }
            }
            q
        } else {
            assert forall|k: int| 0 <= k < qd.len() implies 0 <= #[trigger] qd[k] < ids.len()
                && ids[qd[k]] == present_ids(ids, known)[k] by {
                assert(ids[qd[k]] == d[qd[k]]);
            }
            qd
        }
    }
}

/// A tag's kept ids are at most `ENTRY_COUNT`, are ids of the tag that have
/// a row, run from the latest capture time down, and take distinct places
/// of the tag's list (a repeated id is kept at most as often as it is
/// listed).
pub proof fn lemma_ranked_tag(r: RankedTag, name: Seq<char>, ids: Seq<u64>, rows: Seq<(u64, GeoTagView)>)
    requires
        ranks_tag(r, name, ids, rows),
    ensures
        r.ids@.len() <= ENTRY_COUNT,
        forall|k: int|
            0 <= k < r.ids@.len() ==> ids.contains(#[trigger] r.ids@[k]) && row_index(
                rows,
            ).contains_key(r.ids@[k]),
        forall|a: int, b: int|
            0 <= a < b < r.ids@.len() ==> time_in(rows, r.ids@[a]) >= time_in(rows, r.ids@[b]),
        exists|p: Seq<int>| #[trigger] distinct_places(p, ids, r.ids@),
{
    let known = row_index(rows).dom();
    let present = present_ids(ids, known);
    let times = present.map_values(|x: u64| time_in(rows, x));
    lemma_present_known(ids, known);
    lemma_top_recent_within(r.ids@, present, times, ENTRY_COUNT as nat);
    let order = choose|order: Seq<int>|
        recency_order(times, order) && r.ids@ == leading_ids(order, present, ENTRY_COUNT as nat);
    assert forall|a: int, b: int| 0 <= a < b < r.ids@.len() implies time_in(rows, r.ids@[a])
        >= time_in(rows, r.ids@[b]) by {
        assert(r.ids@[a] == present[order[a]]);
        assert(r.ids@[b] == present[order[b]]);
        assert(ahead(times, order[a], order[b]));
    }
    let q = lemma_present_positions(ids, known);
    let p = Seq::new(r.ids@.len(), |k: int| q[order[k]]);
    assert forall|k: int| 0 <= k < p.len() implies 0 <= #[trigger] p[k] < ids.len() && ids[p[k]]
        == r.ids@[k] by {
        assert(r.ids@[k] == present[order[k]]);
        assert(0 <= order[k] < present.len());
    }
    assert forall|a: int, b: int| 0 <= a < b < p.len() implies p[a] != p[b] by {
        assert(ahead(times, order[a], order[b]));
        assert(0 <= order[a] < present.len() && 0 <= order[b] < present.len());
        if order[a] < order[b] {
            assert(q[order[a]] < q[order[b]]);
        } else {
            assert(q[order[b]] < q[order[a]]);
        }
    }
    assert(distinct_places(p, ids, r.ids@));
}

/// An id that any tag keeps, however many tags keep it, stands exactly once
/// among the gathered ids, and so has exactly one written row.
pub proof fn lemma_kept_once(u: Ultimate, x: u64, k: int)
    requires
        u.gathers_kept_ids(),
        0 <= k < u.tags.len(),
        u.tags@[k].ids@.contains(x),
    ensures
        exists|a: int|
            0 <= a < u.ids.len() && u.ids@[a] == x && forall|b: int|
                0 <= b < u.ids.len() && #[trigger] u.ids@[b] == x ==> b == a,
{
    assert(u.ids@.contains(x));
    let a = choose|a: int| 0 <= a < u.ids.len() && u.ids@[a] == x;
    assert forall|b: int| 0 <= b < u.ids.len() && #[trigger] u.ids@[b] == x implies b == a by {
        if b < a {
            assert(u.ids@[b] < u.ids@[a]);
        } else if b > a {
            assert(u.ids@[a] < u.ids@[b]);
        }
    }
}

/// The ids that some tag line lists and no row carries, each once, in
/// ascending order.
pub fn hikaku(tags: &Vec<(String, Vec<u64>)>, rows: &Vec<(u64, GeoTag)>) -> (r: Vec<u64>)
    ensures
        strictly_increasing(r@),
        forall|x: u64|
            r@.contains(x) <==> (exists|k: int|
                0 <= k < tags.len() && (#[trigger] tags@[k]).1@.contains(x)) && !(exists|j: int|
                0 <= j < rows.len() && (#[trigger] rows@[j]).0 == x),
{
    let mut present: HashSet<u64> = HashSet::new();
    let mut j: usize = 0;
    while j < rows.len()
        invariant
            j <= rows.len(),
            forall|x: u64|
                present@.contains(x) <==> exists|i: int| 0 <= i < j && (#[trigger] rows@[i]).0 == x,
        decreases rows.len() - j,
    {
        present.insert(rows[j].0);
        j = j + 1;
        assert forall|x: u64|
            present@.contains(x) <==> exists|i: int| 0 <= i < j && (#[trigger] rows@[i]).0 == x by {
            if x == rows@[j - 1].0 {
                assert(rows@[j - 1].0 == x);
            }
        }
    }
    let mut all: Vec<u64> = Vec::new();
    let mut k: usize = 0;
    while k < tags.len()
        invariant
            k <= tags.len(),
            forall|x: u64|
                all@.contains(x) <==> exists|i: int| 0 <= i < k && (#[trigger] tags@[i]).1@.contains(x),
        decreases tags.len() - k,
    {
        let ids = &tags[k].1;
        let ghost before = all@;
        let mut t: usize = 0;
        while t < ids.len()
            invariant
                t <= ids.len(),
                k < tags.len(),
                ids == &tags@[k as int].1,
                all@ == before + ids@.take(t as int),
                forall|x: u64|
                    before.contains(x) <==> exists|i: int|
                        0 <= i < k && (#[trigger] tags@[i]).1@.contains(x),
            decreases ids.len() - t,
        {
            all.push(ids[t]);
            t = t + 1;
            assert(all@ =~= before + ids@.take(t as int));
        }
        assert(ids@.take(t as int) =~= ids@);
        k = k + 1;
        assert forall|x: u64|
            all@.contains(x) <==> exists|i: int| 0 <= i < k && (#[trigger] tags@[i]).1@.contains(x) by {
            if all@.contains(x) {
                let a = choose|a: int| 0 <= a < all.len() && all@[a] == x;
                if a < before.len() {
                    assert(before.contains(x));
                } else {
                    assert(tags@[k - 1].1@[a - before.len()] == x);
                    assert(tags@[k - 1].1@.contains(x));
                }
            }
            if exists|i: int| 0 <= i < k && (#[trigger] tags@[i]).1@.contains(x) {
                let i = choose|i: int| 0 <= i < k && (#[trigger] tags@[i]).1@.contains(x);
                if i < k - 1 {
                    assert(before.contains(x));
                    let a = choose|a: int| 0 <= a < before.len() && before[a] == x;
                    assert(all@[a] == x);
                } else {
                    let a = choose|a: int| 0 <= a < ids.len() && ids@[a] == x;
                    assert(all@[before.len() + a] == x);
                }
            }
        }
    }
    let sorted = union_range(&all, 0, all.len());
    assert(all@.subrange(0, all.len() as int) =~= all@);
    let mut out: Vec<u64> = Vec::new();
    let mut a: usize = 0;
    while a < sorted.len()
        invariant
            a <= sorted.len(),
            strictly_increasing(sorted@),
            sorted@.to_set() == all@.to_set(),
            strictly_increasing(out@),
            forall|b: int, c: int| 0 <= b < out.len() && a <= c < sorted.len() ==> out@[b] < sorted@[c],
            forall|x: u64|
                out@.contains(x) <==> (exists|c: int| 0 <= c < a && sorted@[c] == x)
                    && !present@.contains(x),
        decreases sorted.len() - a,
    {
        let x = sorted[a];
        if !present.contains(&x) {
            let ghost before = out@;
            out.push(x);
            proof {
                assert forall|b: int, c: int| 0 <= b < out.len() && a + 1 <= c < sorted.len() implies out@[b]
                    < sorted@[c] by {
                    if b < before.len() {
                        assert(out@[b] == before[b]);
                    }
                }
                assert forall|b1: int, b2: int| 0 <= b1 < b2 < out.len() implies out@[b1] < out@[b2] by {
                    if b2 == before.len() {
                        assert(before[b1] < sorted@[a as int]);
                    }
                }
                assert forall|y: u64|
                    out@.contains(y) <==> (exists|c: int| 0 <= c < a + 1 && sorted@[c] == y)
                        && !present@.contains(y) by {
                    if out@.contains(y) {
                        let b = choose|b: int| 0 <= b < out.len() && out@[b] == y;
                        if b < before.len() {
                            assert(before[b] == y);
                        }
                    }
                    if y == x && !present@.contains(y) {
                        assert(out@[before.len() as int] == y);
                    } else if (exists|c: int| 0 <= c < a + 1 && sorted@[c] == y) && !present@.contains(y) {
                        let c = choose|c: int| 0 <= c < a + 1 && sorted@[c] == y;
                        if c < a {
                            let b = choose|b: int| 0 <= b < before.len() && before[b] == y;
                            assert(out@[b] == y);
                        }
                    }
                }
            }
        } else {
            proof {
                assert forall|y: u64|
                    out@.contains(y) <==> (exists|c: int| 0 <= c < a + 1 && sorted@[c] == y)
                        && !present@.contains(y) by {
                    if (exists|c: int| 0 <= c < a + 1 && sorted@[c] == y) && !present@.contains(y) {
                        let c = choose|c: int| 0 <= c < a + 1 && sorted@[c] == y;
                        if c == a {
                            assert(y == x);
                        }
                    }
                }
            }
        }
        a = a + 1;
    }
    proof {
        assert forall|x: u64|
            out@.contains(x) <==> (exists|k: int|
                0 <= k < tags.len() && (#[trigger] tags@[k]).1@.contains(x)) && !(exists|j: int|
                0 <= j < rows.len() && (#[trigger] rows@[j]).0 == x) by {
            assert(sorted@.to_set().contains(x) == sorted@.contains(x));
            assert(all@.to_set().contains(x) == all@.contains(x));
            if sorted@.contains(x) {
                let c = choose|c: int| 0 <= c < sorted.len() && sorted@[c] == x;
            }
        }
    }
    out
}

} // verus!
