//! The tag pass: tag lines become an index from tag name to the ids under
//! it, names in ascending order, and a list of the untagged ids.
use vstd::prelude::*;
use crate::compact::line_views;
use crate::parse::{parse_string_to_tag_id, tag_line};
use crate::text::{
    all_digits, chars_of, decimal_of, decimal_u64, find_char, find_from, is_digit, lemma_decimal_of,
    lemma_find_from, lemma_find_from_at, parse_decimal,
    push_decimal, push_str, same_chars, string_of,
};

verus! {

/// The order of names: character by character, a proper prefix first.
pub open spec fn name_lt(a: Seq<char>, b: Seq<char>) -> bool
    decreases a.len(),
{
    if a.len() == 0 {
        b.len() > 0
    } else if b.len() == 0 {
        false
    } else if a[0] != b[0] {
        a[0] < b[0]
    } else {
        name_lt(a.drop_first(), b.drop_first())
    }
}

pub proof fn lemma_name_lt_irreflexive(a: Seq<char>)
    ensures
        !name_lt(a, a),
    decreases a.len(),
{
    if a.len() > 0 {
        lemma_name_lt_irreflexive(a.drop_first());
    }
}

pub proof fn lemma_name_lt_transitive(a: Seq<char>, b: Seq<char>, c: Seq<char>)
    requires
        name_lt(a, b),
        name_lt(b, c),
    ensures
        name_lt(a, c),
    decreases a.len(),
{
    if a.len() > 0 && b.len() > 0 && c.len() > 0 && a[0] == b[0] && b[0] == c[0] {
        lemma_name_lt_transitive(a.drop_first(), b.drop_first(), c.drop_first());
    }
}

pub proof fn lemma_name_lt_total(a: Seq<char>, b: Seq<char>)
    requires
        a != b,
    ensures
        name_lt(a, b) || name_lt(b, a),
    decreases a.len(),
{
    if a.len() > 0 && b.len() > 0 && a[0] == b[0] {
        if a.drop_first() == b.drop_first() {
            assert(a =~= seq![a[0]] + a.drop_first());
            assert(b =~= seq![b[0]] + b.drop_first());
        }
        lemma_name_lt_total(a.drop_first(), b.drop_first());
    } else if a.len() == 0 && b.len() == 0 {
        assert(a =~= b);
    }
}

/// Whether name `a` comes before name `b`.
pub fn name_less(a: &Vec<char>, b: &Vec<char>) -> (r: bool)
    ensures
        r == name_lt(a@, b@),
{
    let mut i: usize = 0;
    assert(a@.skip(0) =~= a@);
    assert(b@.skip(0) =~= b@);
    while i < a.len() && i < b.len() && a[i] == b[i]
        invariant
            i <= a.len(),
            i <= b.len(),
            name_lt(a@, b@) == name_lt(a@.skip(i as int), b@.skip(i as int)),
        decreases a.len() - i,
    {
        assert(a@.skip(i as int).drop_first() =~= a@.skip(i + 1));
        assert(b@.skip(i as int).drop_first() =~= b@.skip(i + 1));
        i = i + 1;
    }
    if i == a.len() {
        i < b.len()
    } else if i == b.len() {
        false
    } else {
        a[i] < b[i]
    }
}

/// The ids that `pairs` puts under name `t`, in order.
pub open spec fn ids_for(pairs: Seq<(Seq<char>, u64)>, t: Seq<char>) -> Seq<u64>
    decreases pairs.len(),
{
    if pairs.len() == 0 {
        Seq::empty()
    } else {
        let r = ids_for(pairs.drop_last(), t);
        if pairs.last().0 == t {
            r.push(pairs.last().1)
        } else {
            r
        }
    }
}

pub proof fn lemma_ids_for_concat(p: Seq<(Seq<char>, u64)>, q: Seq<(Seq<char>, u64)>, t: Seq<char>)
    ensures
        ids_for(p + q, t) == ids_for(p, t) + ids_for(q, t),
    decreases q.len(),
{
    if q.len() == 0 {
        assert(p + q =~= p);
        assert(ids_for(p, t) + ids_for(q, t) =~= ids_for(p, t));
    } else {
        assert((p + q).drop_last() =~= p + q.drop_last());
        lemma_ids_for_concat(p, q.drop_last(), t);
        assert((p + q).last() == q.last());
        if q.last().0 == t {
            assert(ids_for(p, t) + ids_for(q.drop_last(), t).push(q.last().1) =~= (ids_for(p, t)
                + ids_for(q.drop_last(), t)).push(q.last().1));
        }
    }
}

/// The names of `pairs` are exactly those with ids under them.
pub proof fn lemma_ids_for_nonempty(pairs: Seq<(Seq<char>, u64)>, t: Seq<char>)
    ensures
        ids_for(pairs, t).len() > 0 <==> exists|k: int| 0 <= k < pairs.len() && pairs[k].0 == t,
    decreases pairs.len(),
{
    if pairs.len() > 0 {
        let d = pairs.drop_last();
        lemma_ids_for_nonempty(d, t);
        if exists|k: int| 0 <= k < d.len() && d[k].0 == t {
            let k = choose|k: int| 0 <= k < d.len() && d[k].0 == t;
            assert(pairs[k].0 == t);
        }
        if exists|k: int| 0 <= k < pairs.len() && pairs[k].0 == t {
            let k = choose|k: int| 0 <= k < pairs.len() && pairs[k].0 == t;
            if k < d.len() {
                assert(d[k].0 == t);
            }
        }
    }
}

/// `entries` lists, in ascending name order and once each, every non-empty
/// name of `pairs` with the ids under it.
pub open spec fn is_tag_index(entries: Seq<(Seq<char>, Seq<u64>)>, pairs: Seq<(Seq<char>, u64)>) -> bool {
    &&& forall|i: int, j: int| 0 <= i < j < entries.len() ==> name_lt(entries[i].0, entries[j].0)
    &&& forall|k: int|
        0 <= k < entries.len() ==> {
            &&& (#[trigger] entries[k]).0.len() > 0
            &&& entries[k].1 == ids_for(pairs, entries[k].0)
            &&& entries[k].1.len() > 0
        }
    &&& forall|k: int|
        0 <= k < pairs.len() && (#[trigger] pairs[k]).0.len() > 0 ==> exists|e: int|
            0 <= e < entries.len() && entries[e].0 == pairs[k].0
}

/// Entries held as the position of a pair whose name is the entry's name,
/// and the entry's ids.
pub open spec fn entry_views(names: Seq<Vec<char>>, e: Seq<(usize, Vec<u64>)>) -> Seq<
    (Seq<char>, Seq<u64>),
> {
    Seq::new(e.len(), |k: int| (names[e[k].0 as int]@, e[k].1@))
}

pub open spec fn entries_in(names: Seq<Vec<char>>, e: Seq<(usize, Vec<u64>)>) -> bool {
    forall|k: int| 0 <= k < e.len() ==> (#[trigger] e[k]).0 < names.len()
}

/// With every non-empty name of `pairs` among `o` or `e[start..]`, all of
/// `o` before `n` and `n` before all of `e[start..]`, no pair is named `n`.
proof fn lemma_absent(
    pairs: Seq<(Seq<char>, u64)>,
    o: Seq<(Seq<char>, Seq<u64>)>,
    e: Seq<(Seq<char>, Seq<u64>)>,
    start: int,
    n: Seq<char>,
)
    requires
        n.len() > 0,
        forall|x: int| 0 <= x < o.len() ==> name_lt(#[trigger] o[x].0, n),
        forall|x: int| start <= x < e.len() ==> name_lt(n, #[trigger] e[x].0),
        forall|k: int|
            0 <= k < pairs.len() && (#[trigger] pairs[k]).0.len() > 0 ==> (exists|x: int|
                0 <= x < o.len() && o[x].0 == pairs[k].0) || (exists|x: int|
                start <= x < e.len() && e[x].0 == pairs[k].0),
    ensures
        ids_for(pairs, n).len() == 0,
{
    lemma_ids_for_nonempty(pairs, n);
    lemma_name_lt_irreflexive(n);
    if exists|k: int| 0 <= k < pairs.len() && pairs[k].0 == n {
        let k = choose|k: int| 0 <= k < pairs.len() && pairs[k].0 == n;
        assert(pairs[k].0.len() > 0);
        if exists|x: int| 0 <= x < o.len() && o[x].0 == pairs[k].0 {
            let x = choose|x: int| 0 <= x < o.len() && o[x].0 == pairs[k].0;
            assert(name_lt(o[x].0, n));
        } else {
            let x = choose|x: int| start <= x < e.len() && e[x].0 == pairs[k].0;
            assert(name_lt(n, e[x].0));
        }
    }
}

fn copy_ids(v: &Vec<u64>) -> (r: Vec<u64>)
    ensures
        r@ == v@,
{
    let mut r: Vec<u64> = Vec::new();
    let mut i: usize = 0;
    while i < v.len()
        invariant
            i <= v.len(),
            r@ == v@.take(i as int),
        decreases v.len() - i,
    {
        r.push(v[i]);
        i = i + 1;
        assert(r@ =~= v@.take(i as int));
    }
    assert(v@.take(i as int) =~= v@);
    r
}

fn append_ids(out: &mut Vec<u64>, v: &Vec<u64>)
    ensures
        final(out)@ == old(out)@ + v@,
{
    let mut i: usize = 0;
    while i < v.len()
        invariant
            i <= v.len(),
            out@ == old(out)@ + v@.take(i as int),
        decreases v.len() - i,
    {
        out.push(v[i]);
        i = i + 1;
        assert(out@ =~= old(out)@ + v@.take(i as int));
    }
    assert(v@.take(i as int) =~= v@);
}

/// Merges the indexes of two runs of pairs into the index of both runs.
#[verifier::rlimit(60)]
fn merge_entries(
    names: &Vec<Vec<char>>,
    a: &Vec<(usize, Vec<u64>)>,
    b: &Vec<(usize, Vec<u64>)>,
    Ghost(p): Ghost<Seq<(Seq<char>, u64)>>,
    Ghost(q): Ghost<Seq<(Seq<char>, u64)>>,
) -> (r: Vec<(usize, Vec<u64>)>)
    requires
        entries_in(names@, a@),
        entries_in(names@, b@),
        is_tag_index(entry_views(names@, a@), p),
        is_tag_index(entry_views(names@, b@), q),
    ensures
        entries_in(names@, r@),
        is_tag_index(entry_views(names@, r@), p + q),
{
    let ghost ea = entry_views(names@, a@);
    let ghost eb = entry_views(names@, b@);
    let ghost pq = p + q;
    let mut out: Vec<(usize, Vec<u64>)> = Vec::new();
    let mut i: usize = 0;
    let mut j: usize = 0;
    while i < a.len() || j < b.len()
        invariant
            i <= a.len(),
            j <= b.len(),
            ea == entry_views(names@, a@),
            eb == entry_views(names@, b@),
            pq == p + q,
            entries_in(names@, a@),
            entries_in(names@, b@),
            entries_in(names@, out@),
            is_tag_index(ea, p),
            is_tag_index(eb, q),
            ({
                let o = entry_views(names@, out@);
                &&& forall|x: int, y: int| 0 <= x < y < o.len() ==> name_lt(o[x].0, o[y].0)
                &&& forall|x: int, y: int|
                    0 <= x < o.len() && i <= y < ea.len() ==> name_lt(o[x].0, ea[y].0)
                &&& forall|x: int, y: int|
                    0 <= x < o.len() && j <= y < eb.len() ==> name_lt(o[x].0, eb[y].0)
                &&& forall|x: int|
                    0 <= x < o.len() ==> {
                        &&& (#[trigger] o[x]).0.len() > 0
                        &&& o[x].1 == ids_for(pq, o[x].0)
                        &&& o[x].1.len() > 0
                    }
                &&& forall|k: int|
                    0 <= k < p.len() && (#[trigger] p[k]).0.len() > 0 ==> (exists|x: int|
                        0 <= x < o.len() && o[x].0 == p[k].0) || (exists|x: int|
                        i <= x < ea.len() && ea[x].0 == p[k].0)
                &&& forall|k: int|
                    0 <= k < q.len() && (#[trigger] q[k]).0.len() > 0 ==> (exists|x: int|
                        0 <= x < o.len() && o[x].0 == q[k].0) || (exists|x: int|
                        j <= x < eb.len() && eb[x].0 == q[k].0)
            }),
        decreases a.len() + b.len() - i - j,
    {
        let ghost o = entry_views(names@, out@);
        let take_a = if i == a.len() {
            false
        } else if j == b.len() {
            true
        } else {
            !name_less(&names[b[j].0], &names[a[i].0])
        };
        let same = take_a && j < b.len() && same_chars(&names[a[i].0], &names[b[j].0]);
        if same {
            let ghost n = ea[i as int].0;
            proof {
                lemma_ids_for_concat(p, q, n);
            }
            let mut ids = copy_ids(&a[i].1);
            append_ids(&mut ids, &b[j].1);
            out.push((a[i].0, ids));
            proof {
                let o2 = entry_views(names@, out@);
                assert(o2 =~= o.push((n, ea[i as int].1 + eb[j as int].1)));
                assert forall|x: int, y: int| i + 1 <= y < ea.len() && 0 <= x < o2.len() implies name_lt(
                    o2[x].0,
                    ea[y].0,
                ) by {}
                assert forall|x: int, y: int| j + 1 <= y < eb.len() && 0 <= x < o2.len() implies name_lt(
                    o2[x].0,
                    eb[y].0,
                ) by {}
                assert forall|k: int|
                    0 <= k < p.len() && (#[trigger] p[k]).0.len() > 0 implies (exists|x: int|
                        0 <= x < o2.len() && o2[x].0 == p[k].0) || (exists|x: int|
                        i + 1 <= x < ea.len() && ea[x].0 == p[k].0) by {
                    if p[k].0 == n {
                        assert(o2[o.len() as int].0 == p[k].0);
                    } else if exists|x: int| 0 <= x < o.len() && o[x].0 == p[k].0 {
                        let x = choose|x: int| 0 <= x < o.len() && o[x].0 == p[k].0;
                        assert(o2[x].0 == p[k].0);
                    }
                }
                assert forall|k: int|
                    0 <= k < q.len() && (#[trigger] q[k]).0.len() > 0 implies (exists|x: int|
                        0 <= x < o2.len() && o2[x].0 == q[k].0) || (exists|x: int|
                        j + 1 <= x < eb.len() && eb[x].0 == q[k].0) by {
                    if q[k].0 == n {
                        assert(o2[o.len() as int].0 == q[k].0);
                    } else if exists|x: int| 0 <= x < o.len() && o[x].0 == q[k].0 {
                        let x = choose|x: int| 0 <= x < o.len() && o[x].0 == q[k].0;
                        assert(o2[x].0 == q[k].0);
                    }
                }
            }
            i = i + 1;
            j = j + 1;
        } else if take_a {
            let ghost n = ea[i as int].0;
            proof {
                if j < b.len() {
                    lemma_name_lt_total(n, eb[j as int].0);
                    assert forall|y: int| j <= y < eb.len() implies name_lt(n, #[trigger] eb[y].0) by {
                        if y > j {
                            lemma_name_lt_transitive(n, eb[j as int].0, eb[y].0);
                        }
                    }
                }
                assert forall|x: int| 0 <= x < o.len() implies name_lt(#[trigger] o[x].0, n) by {}
                lemma_absent(q, o, eb, j as int, n);
                lemma_ids_for_concat(p, q, n);
                assert(ids_for(q, n) =~= Seq::<u64>::empty());
                assert(ids_for(pq, n) =~= ids_for(p, n));
            }
            let ids = copy_ids(&a[i].1);
            out.push((a[i].0, ids));
            proof {
                let o2 = entry_views(names@, out@);
                assert(o2 =~= o.push((n, ea[i as int].1)));
                assert forall|x: int, y: int| j <= y < eb.len() && 0 <= x < o2.len() implies name_lt(
                    o2[x].0,
                    eb[y].0,
                ) by {
                    if x == o.len() {
                        if y > j {
                            lemma_name_lt_transitive(n, eb[j as int].0, eb[y].0);
                        }
                    }
                }
                assert forall|k: int|
                    0 <= k < p.len() && (#[trigger] p[k]).0.len() > 0 implies (exists|x: int|
                        0 <= x < o2.len() && o2[x].0 == p[k].0) || (exists|x: int|
                        i + 1 <= x < ea.len() && ea[x].0 == p[k].0) by {
                    if p[k].0 == n {
                        assert(o2[o.len() as int].0 == p[k].0);
                    } else if exists|x: int| 0 <= x < o.len() && o[x].0 == p[k].0 {
                        let x = choose|x: int| 0 <= x < o.len() && o[x].0 == p[k].0;
                        assert(o2[x].0 == p[k].0);
                    }
                }
                assert forall|k: int|
                    0 <= k < q.len() && (#[trigger] q[k]).0.len() > 0 implies (exists|x: int|
                        0 <= x < o2.len() && o2[x].0 == q[k].0) || (exists|x: int|
                        j <= x < eb.len() && eb[x].0 == q[k].0) by {
                    if exists|x: int| 0 <= x < o.len() && o[x].0 == q[k].0 {
                        let x = choose|x: int| 0 <= x < o.len() && o[x].0 == q[k].0;
                        assert(o2[x].0 == q[k].0);
                    }
                }
            }
            i = i + 1;
        } else {
            let ghost n = eb[j as int].0;
            proof {
                if i < a.len() {
                    assert forall|y: int| i <= y < ea.len() implies name_lt(n, #[trigger] ea[y].0) by {
                        if y > i {
                            lemma_name_lt_transitive(n, ea[i as int].0, ea[y].0);
                        }
                    }
                }
                assert forall|x: int| 0 <= x < o.len() implies name_lt(#[trigger] o[x].0, n) by {}
                lemma_absent(p, o, ea, i as int, n);
                lemma_ids_for_concat(p, q, n);
                assert(ids_for(p, n) =~= Seq::<u64>::empty());
                assert(ids_for(pq, n) =~= ids_for(q, n));
            }
            let ids = copy_ids(&b[j].1);
            out.push((b[j].0, ids));
            proof {
                let o2 = entry_views(names@, out@);
                assert(o2 =~= o.push((n, eb[j as int].1)));
                assert forall|x: int, y: int| i <= y < ea.len() && 0 <= x < o2.len() implies name_lt(
                    o2[x].0,
                    ea[y].0,
                ) by {
                    if x == o.len() {
                        if y > i {
                            lemma_name_lt_transitive(n, ea[i as int].0, ea[y].0);
                        }
                    }
                }
                assert forall|k: int|
                    0 <= k < q.len() && (#[trigger] q[k]).0.len() > 0 implies (exists|x: int|
                        0 <= x < o2.len() && o2[x].0 == q[k].0) || (exists|x: int|
                        j + 1 <= x < eb.len() && eb[x].0 == q[k].0) by {
                    if q[k].0 == n {
                        assert(o2[o.len() as int].0 == q[k].0);
                    } else if exists|x: int| 0 <= x < o.len() && o[x].0 == q[k].0 {
                        let x = choose|x: int| 0 <= x < o.len() && o[x].0 == q[k].0;
                        assert(o2[x].0 == q[k].0);
                    }
                }
                assert forall|k: int|
                    0 <= k < p.len() && (#[trigger] p[k]).0.len() > 0 implies (exists|x: int|
                        0 <= x < o2.len() && o2[x].0 == p[k].0) || (exists|x: int|
                        i <= x < ea.len() && ea[x].0 == p[k].0) by {
                    if exists|x: int| 0 <= x < o.len() && o[x].0 == p[k].0 {
                        let x = choose|x: int| 0 <= x < o.len() && o[x].0 == p[k].0;
                        assert(o2[x].0 == p[k].0);
                    }
                }
            }
            j = j + 1;
        }
    }
    proof {
        let o = entry_views(names@, out@);
        assert forall|k: int|
            0 <= k < pq.len() && (#[trigger] pq[k]).0.len() > 0 implies exists|x: int|
                0 <= x < o.len() && o[x].0 == pq[k].0 by {
            if k < p.len() {
                assert(pq[k] == p[k]);
            } else {
                assert(pq[k] == q[k - p.len()]);
            }
        }
    }
    out
}

pub open spec fn pairs_of(names: Seq<Vec<char>>, ids: Seq<u64>) -> Seq<(Seq<char>, u64)> {
    Seq::new(names.len(), |k: int| (names[k]@, ids[k]))
}

/// The index of the pairs from `lo` up to `hi`.
fn index_range(names: &Vec<Vec<char>>, ids: &Vec<u64>, lo: usize, hi: usize) -> (r: Vec<
    (usize, Vec<u64>),
>)
    requires
        lo <= hi <= names.len(),
        names.len() == ids.len(),
    ensures
        entries_in(names@, r@),
        is_tag_index(entry_views(names@, r@), pairs_of(names@, ids@).subrange(lo as int, hi as int)),
    decreases hi - lo,
{
    let ghost all = pairs_of(names@, ids@);
    if hi - lo == 0 {
        let r: Vec<(usize, Vec<u64>)> = Vec::new();
        assert(entry_views(names@, r@) =~= Seq::<(Seq<char>, Seq<u64>)>::empty());
        r
    } else if hi - lo == 1 {
        let mut r: Vec<(usize, Vec<u64>)> = Vec::new();
        let ghost ps = all.subrange(lo as int, hi as int);
        assert(ps.drop_last() =~= Seq::<(Seq<char>, u64)>::empty());
        if names[lo].len() > 0 {
            let mut v: Vec<u64> = Vec::new();
            v.push(ids[lo]);
            r.push((lo, v));
            proof {
                let e = entry_views(names@, r@);
                assert(ps.len() == 1);
                assert(ps.last() == (names@[lo as int]@, ids@[lo as int]));
                assert(ids_for(ps.drop_last(), e[0].0) =~= Seq::<u64>::empty());
                assert(e[0].1 =~= ids_for(ps, e[0].0));
                assert(ps[0].0 == e[0].0);
            }
        } else {
            assert(entry_views(names@, r@) =~= Seq::<(Seq<char>, Seq<u64>)>::empty());
        }
        r
    } else {
        let mid = lo + (hi - lo) / 2;
        let a = index_range(names, ids, lo, mid);
        let b = index_range(names, ids, mid, hi);
        assert(all.subrange(lo as int, mid as int) + all.subrange(mid as int, hi as int)
            =~= all.subrange(lo as int, hi as int));
        merge_entries(
            names,
            &a,
            &b,
            Ghost(all.subrange(lo as int, mid as int)),
            Ghost(all.subrange(mid as int, hi as int)),
        )
    }
}

/// The (name, id) pairs of the tag lines that read, in line order.
pub open spec fn tag_pairs(lines: Seq<Seq<char>>) -> Seq<(Seq<char>, u64)>
    decreases lines.len(),
{
    if lines.len() == 0 {
        Seq::empty()
    } else {
        let ps = tag_pairs(lines.drop_last());
        match tag_line(lines.last()) {
            Some(p) => ps.push(p),
            None => ps,
        }
    }
}

/// The positions of the tag lines that do not read.
pub open spec fn unread_tag_lines(lines: Seq<Seq<char>>) -> Seq<int>
    decreases lines.len(),
{
    if lines.len() == 0 {
        Seq::empty()
    } else {
        let u = unread_tag_lines(lines.drop_last());
        if tag_line(lines.last()) is None {
            u.push(lines.len() - 1)
        } else {
            u
        }
    }
}

/// Tag names with their ids, ascending by name, and the untagged ids.
pub struct TagIndex {
    pub untagged: Vec<u64>,
    pub tags: Vec<(String, Vec<u64>)>,
}

pub open spec fn tag_views(tags: Seq<(String, Vec<u64>)>) -> Seq<(Seq<char>, Seq<u64>)> {
    tags.map_values(|t: (String, Vec<u64>)| (t.0@, t.1@))
}

impl TagIndex {
    /// This index is the one of the tag lines `lines`.
    pub open spec fn indexes(&self, lines: Seq<Seq<char>>) -> bool {
        &&& self.untagged@ == ids_for(tag_pairs(lines), Seq::empty())
        &&& is_tag_index(tag_views(self.tags@), tag_pairs(lines))
    }
}

pub struct TagPass {
    pub index: TagIndex,
    /// Positions of the lines that did not read.
    pub unread: Vec<usize>,
}

/// Reads tag lines and builds their index.
pub fn index_tag_lines(lines: &Vec<String>) -> (r: TagPass)
    ensures
        r.index.indexes(line_views(lines@)),
        r.unread@.map_values(|k: usize| k as int) == unread_tag_lines(line_views(lines@)),
{
    let ghost ls = line_views(lines@);
    let mut names: Vec<Vec<char>> = Vec::new();
    let mut ids: Vec<u64> = Vec::new();
    let mut unread: Vec<usize> = Vec::new();
    let mut untagged: Vec<u64> = Vec::new();
    let mut i: usize = 0;
    while i < lines.len()
        invariant
            i <= lines.len(),
            ls == line_views(lines@),
            names.len() == ids.len(),
            pairs_of(names@, ids@) == tag_pairs(ls.take(i as int)),
            untagged@ == ids_for(tag_pairs(ls.take(i as int)), Seq::empty()),
            unread@.map_values(|k: usize| k as int) == unread_tag_lines(ls.take(i as int)),
        decreases lines.len() - i,
    {
        assert(ls.take(i + 1).drop_last() =~= ls.take(i as int));
        assert(ls.take(i + 1).last() == lines@[i as int]@);
        let ghost before = pairs_of(names@, ids@);
        let ghost before_u = unread@;
        match parse_string_to_tag_id(lines[i].as_str()) {
            Some((name, id)) => {
                let v = chars_of(name.as_str());
                assert(tag_pairs(ls.take(i + 1)) == before.push((name@, id)));
                assert(before.push((name@, id)).drop_last() =~= before);
                if v.len() == 0 {
                    assert(name@ =~= Seq::<char>::empty());
                    untagged.push(id);
                } else {
                    assert(name@ != Seq::<char>::empty());
                }
                names.push(v);
                ids.push(id);
                assert(pairs_of(names@, ids@) =~= before.push((name@, id)));
            },
            None => {
                assert(tag_pairs(ls.take(i + 1)) == before);
                unread.push(i);
                assert(unread@.map_values(|k: usize| k as int) =~= before_u.map_values(
                    |k: usize| k as int,
                ).push(i as int));
            },
        }
        i = i + 1;
    }
    assert(ls.take(lines.len() as int) =~= ls);
    let entries = index_range(&names, &ids, 0, names.len());
    assert(pairs_of(names@, ids@).subrange(0, names.len() as int) =~= pairs_of(names@, ids@));
    let mut tags: Vec<(String, Vec<u64>)> = Vec::new();
    let mut k: usize = 0;
    while k < entries.len()
        invariant
            k <= entries.len(),
            entries_in(names@, entries@),
            tag_views(tags@) == entry_views(names@, entries@).take(k as int),
        decreases entries.len() - k,
    {
        let ghost before = tag_views(tags@);
        let e = &entries[k];
        let n = &names[e.0];
        let name = string_of(n, 0, n.len());
        assert(n@.subrange(0, n.len() as int) =~= n@);
        let c = copy_ids(&e.1);
        tags.push((name, c));
        assert(tag_views(tags@) =~= before.push((n@, e.1@)));
        k = k + 1;
        assert(tag_views(tags@) =~= entry_views(names@, entries@).take(k as int));
    }
    assert(entry_views(names@, entries@).take(k as int) =~= entry_views(names@, entries@));
    TagPass { index: TagIndex { untagged, tags }, unread }
}

/// The name of the line that lists the untagged ids.
pub const NO_TAG: &'static str = "NO_TAG";

/// Decimal numerals of `ids`, comma between each two.
pub open spec fn joined(ids: Seq<u64>) -> Seq<char>
    decreases ids.len(),
{
    if ids.len() == 0 {
        Seq::empty()
    } else if ids.len() == 1 {
        decimal_of(ids[0] as nat)
    } else {
        joined(ids.drop_last()) + seq![','] + decimal_of(ids.last() as nat)
    }
}

/// `<name>,<number of ids>,<ids>`.
pub open spec fn counted_line(name: Seq<char>, ids: Seq<u64>) -> Seq<char> {
    name + seq![','] + decimal_of(ids.len()) + seq![','] + joined(ids)
}

/// `<name>,<ids>`.
pub open spec fn plain_line(name: Seq<char>, ids: Seq<u64>) -> Seq<char> {
    name + seq![','] + joined(ids)
}

pub fn push_joined(out: &mut String, ids: &Vec<u64>)
    ensures
        final(out)@ == old(out)@ + joined(ids@),
{
    let mut k: usize = 0;
    while k < ids.len()
        invariant
            k <= ids.len(),
            out@ == old(out)@ + joined(ids@.take(k as int)),
        decreases ids.len() - k,
    {
        let ghost before = out@;
        if k > 0 {
            out.push(',');
        }
        push_decimal(out, ids[k]);
        k = k + 1;
        let ghost t = ids@.take(k as int);
        assert(t.drop_last() =~= ids@.take(k - 1));
        if k == 1 {
            assert(joined(ids@.take(0)) =~= Seq::<char>::empty());
            assert(out@ =~= old(out)@ + joined(t));
        } else {
            assert(out@ =~= old(out)@ + joined(t));
        }
    }
    assert(ids@.take(k as int) =~= ids@);
}

/// The line `<name>,<number of ids>,<ids>`.
pub fn counted_line_of(name: &String, ids: &Vec<u64>) -> (r: String)
    ensures
        r@ == counted_line(name@, ids@),
{
    let mut out = String::new();
    push_str(&mut out, name);
    out.push(',');
    push_decimal(&mut out, ids.len() as u64);
    out.push(',');
    push_joined(&mut out, ids);
    assert(out@ =~= counted_line(name@, ids@));
    out
}

/// The line `<name>,<ids>`.
pub fn plain_line_of(name: &String, ids: &Vec<u64>) -> (r: String)
    ensures
        r@ == plain_line(name@, ids@),
{
    let mut out = String::new();
    push_str(&mut out, name);
    out.push(',');
    push_joined(&mut out, ids);
    assert(out@ =~= plain_line(name@, ids@));
    out
}

impl TagIndex {
    /// The lines of the tag file: first the untagged ids under `NO_TAG`
    /// (even when there are none), then one counted line per name.
    pub fn to_lines(&self) -> (r: Vec<String>)
        ensures
            r@.map_values(|l: String| l@) == seq![counted_line(NO_TAG@, self.untagged@)]
                + tag_views(self.tags@).map_values(
                |t: (Seq<char>, Seq<u64>)| counted_line(t.0, t.1),
            ),
    {
        let mut out: Vec<String> = Vec::new();
        let head = String::from_str(NO_TAG);
        out.push(counted_line_of(&head, &self.untagged));
        let ghost tv = tag_views(self.tags@).map_values(
            |t: (Seq<char>, Seq<u64>)| counted_line(t.0, t.1),
        );
        let mut k: usize = 0;
        while k < self.tags.len()
            invariant
                k <= self.tags.len(),
                tv == tag_views(self.tags@).map_values(
                    |t: (Seq<char>, Seq<u64>)| counted_line(t.0, t.1),
                ),
                out@.map_values(|l: String| l@) == seq![counted_line(NO_TAG@, self.untagged@)]
                    + tv.take(k as int),
            decreases self.tags.len() - k,
        {
            let line = counted_line_of(&self.tags[k].0, &self.tags[k].1);
            let ghost before = out@;
            out.push(line);
            assert(out@.map_values(|l: String| l@) =~= before.map_values(|l: String| l@).push(
                line@,
            ));
            assert(tv[k as int] == line@);
            assert(tv.take(k + 1) =~= tv.take(k as int).push(line@));
            k = k + 1;
            assert(out@.map_values(|l: String| l@) =~= seq![counted_line(NO_TAG@, self.untagged@)]
                + tv.take(k as int));
        }
        assert(tv.take(k as int) =~= tv);
        out
    }
}

/// The ids of `s` from `pos` on: decimal numerals up to the end, a comma
/// between each two.
pub open spec fn ids_from(s: Seq<char>, pos: int) -> Option<Seq<u64>>
    decreases s.len() - pos,
{
    let k = find_from(s, pos, ',');
    if pos < 0 || pos > s.len() || k < pos {
        None
    } else {
        match decimal_u64(s.subrange(pos, k)) {
            None => None,
            Some(x) => if k >= s.len() {
                Some(seq![x])
            } else {
                match ids_from(s, k + 1) {
                    None => None,
                    Some(r) => Some(seq![x] + r),
                }
            },
        }
    }
}

/// A counted line `<name>,<count>,<ids>` read back: the name runs up to the
/// first comma, and the count must be the number of ids.
pub open spec fn counted_line_parse(s: Seq<char>) -> Option<(Seq<char>, Seq<u64>)> {
    let k1 = find_from(s, 0, ',');
    let k2 = find_from(s, k1 + 1, ',');
    let ids = if k2 + 1 == s.len() {
        Some(Seq::<u64>::empty())
    } else {
        ids_from(s, k2 + 1)
    };
    if k2 < s.len() && decimal_u64(s.subrange(k1 + 1, k2)) is Some && ids is Some && ids->0.len()
        == decimal_u64(s.subrange(k1 + 1, k2))->0 {
        Some((s.take(k1), ids->0))
    } else {
        None
    }
}

fn parse_ids_from(v: &Vec<char>, start: usize) -> (r: Option<Vec<u64>>)
    requires
        start <= v.len(),
    ensures
        match r {
            None => ids_from(v@, start as int) is None,
            Some(ids) => ids_from(v@, start as int) == Some(ids@),
        },
{
    let mut acc: Vec<u64> = Vec::new();
    let mut pos = start;
    assert(acc@ + Seq::<u64>::empty() =~= Seq::<u64>::empty());
    loop
        invariant
            start <= pos <= v.len(),
            ids_from(v@, start as int) == match ids_from(v@, pos as int) {
                None => None,
                Some(r) => Some(acc@ + r),
            },
        decreases v.len() - pos,
    {
        let k = find_char(v, pos, ',');
        proof {
            lemma_find_from(v@, pos as int, ',');
        }
        let x = match parse_decimal(v, pos, k) {
            None => return None,
            Some(x) => x,
        };
        if k == v.len() {
            acc.push(x);
            assert(acc@ =~= acc@.drop_last() + seq![x]);
            return Some(acc);
        }
        let ghost before = acc@;
        acc.push(x);
        proof {
            if let Some(r) = ids_from(v@, k + 1) {
                assert(before + (seq![x] + r) =~= acc@ + r);
            }
        }
        pos = k + 1;
    }
}

/// Reads a counted line back into its name and ids.
pub fn parse_counted_line(s: &str) -> (r: Option<(String, Vec<u64>)>)
    ensures
        match r {
            None => counted_line_parse(s@) is None,
            Some((n, ids)) => counted_line_parse(s@) == Some((n@, ids@)),
        },
{
    let v = chars_of(s);
    let k1 = find_char(&v, 0, ',');
    if k1 == v.len() {
        return None;
    }
    let k2 = find_char(&v, k1 + 1, ',');
    if k2 == v.len() {
        return None;
    }
    let count = match parse_decimal(&v, k1 + 1, k2) {
        None => return None,
        Some(c) => c,
    };
    let ids = if k2 + 1 == v.len() {
        Vec::new()
    } else {
        match parse_ids_from(&v, k2 + 1) {
            None => return None,
            Some(ids) => ids,
        }
    };
    if ids.len() as u64 != count {
        return None;
    }
    assert(v@.take(k1 as int) =~= v@.subrange(0, k1 as int));
    Some((string_of(&v, 0, k1), ids))
}

proof fn lemma_joined_front(ids: Seq<u64>)
    requires
        ids.len() >= 2,
    ensures
        joined(ids) == decimal_of(ids[0] as nat) + seq![','] + joined(ids.skip(1)),
    decreases ids.len(),
{
    let r = ids.skip(1);
    if ids.len() == 2 {
        assert(ids.drop_last().len() == 1);
        assert(r.len() == 1);
        assert(joined(ids.drop_last()) == decimal_of(ids[0] as nat));
        assert(joined(r) == decimal_of(ids[1] as nat));
    } else {
        lemma_joined_front(ids.drop_last());
        assert(ids.drop_last().skip(1) =~= r.drop_last());
        assert(r.last() == ids.last());
        assert(ids.drop_last()[0] == ids[0]);
        assert(joined(ids) =~= decimal_of(ids[0] as nat) + seq![','] + joined(r));
    }
}

proof fn lemma_ids_from_joined(s: Seq<char>, pos: int, ids: Seq<u64>)
    requires
        0 <= pos <= s.len(),
        ids.len() >= 1,
        s.subrange(pos, s.len() as int) == joined(ids),
    ensures
        ids_from(s, pos) == Some(ids),
    decreases ids.len(),
{
    let d = decimal_of(ids[0] as nat);
    lemma_decimal_of(ids[0] as nat);
    let k = pos + d.len();
    if ids.len() >= 2 {
        lemma_joined_front(ids);
    }
    assert(s.subrange(pos, s.len() as int).len() == s.len() - pos);
    assert(k <= s.len());
    assert forall|j: int| pos <= j < k implies s[j] != ',' by {
        assert(s[j] == s.subrange(pos, s.len() as int)[j - pos]);
        assert(s.subrange(pos, s.len() as int)[j - pos] == d[j - pos]);
        assert(is_digit(d[j - pos]));
    }
    if ids.len() == 1 {
        assert(s.len() == k);
        lemma_find_from_at(s, pos, k, ',');
        assert(s.subrange(pos, k) =~= d);
        assert(seq![ids[0]] =~= ids);
    } else {
        lemma_joined_front(ids);
        let r = ids.skip(1);
        assert(s[k] == s.subrange(pos, s.len() as int)[k - pos]);
        lemma_find_from_at(s, pos, k, ',');
        assert(s.subrange(pos, k) =~= d);
        let w = s.subrange(pos, s.len() as int);
        assert(w == d + seq![','] + joined(r));
        assert forall|j: int| 0 <= j < joined(r).len() implies s.subrange(k + 1, s.len() as int)[j]
            == joined(r)[j] by {
            assert(s[k + 1 + j] == w[k + 1 + j - pos]);
            assert(w[d.len() + 1 + j] == joined(r)[j]);
        }
        assert(s.subrange(k + 1, s.len() as int) =~= joined(r));
        lemma_ids_from_joined(s, k + 1, r);
        assert(seq![ids[0]] + r =~= ids);
    }
}

/// A counted line reads back as the name and ids it was written from, when
/// the name holds no comma.
pub proof fn lemma_counted_line_round_trip(name: Seq<char>, ids: Seq<u64>)
    requires
        !name.contains(','),
        ids.len() <= u64::MAX,
    ensures
        counted_line_parse(counted_line(name, ids)) == Some((name, ids)),
{
    let s = counted_line(name, ids);
    let c = decimal_of(ids.len());
    lemma_decimal_of(ids.len());
    let k1 = name.len() as int;
    let k2 = k1 + 1 + c.len();
    assert forall|j: int| 0 <= j < k1 implies s[j] != ',' by {
        assert(s[j] == name[j]);
    }
    lemma_find_from_at(s, 0, k1, ',');
    assert forall|j: int| k1 + 1 <= j < k2 implies s[j] != ',' by {
        assert(s[j] == c[j - k1 - 1]);
        assert(is_digit(c[j - k1 - 1]));
    }
    lemma_find_from_at(s, k1 + 1, k2, ',');
    assert(s.subrange(k1 + 1, k2) =~= c);
    assert(s.take(k1) =~= name);
    if ids.len() == 0 {
        assert(joined(ids) =~= Seq::<char>::empty());
        assert(s.len() == k2 + 1);
    } else {
        assert(s.subrange(k2 + 1, s.len() as int) =~= joined(ids));
        lemma_ids_from_joined(s, k2 + 1, ids);
        if k2 + 1 == s.len() {
            assert(decimal_of(ids[0] as nat).len() >= 1) by {
                lemma_decimal_of(ids[0] as nat);
            }
            if ids.len() >= 2 {
                lemma_joined_front(ids);
            }
            assert(joined(ids).len() >= 1);
        }
    }
}

proof fn lemma_tag_pairs_member(lines: Seq<Seq<char>>, pair: (Seq<char>, u64))
    ensures
        tag_pairs(lines).contains(pair) <==> exists|j: int|
            0 <= j < lines.len() && tag_line(#[trigger] lines[j]) == Some(pair),
    decreases lines.len(),
{
    if lines.len() > 0 {
        let d = lines.drop_last();
        lemma_tag_pairs_member(d, pair);
        let ps = tag_pairs(lines);
        let pd = tag_pairs(d);
        if ps.contains(pair) {
            let k = choose|k: int| 0 <= k < ps.len() && ps[k] == pair;
            if k < pd.len() {
                assert(pd[k] == pair);
                let j = choose|j: int| 0 <= j < d.len() && tag_line(#[trigger] d[j]) == Some(pair);
                assert(lines[j] == d[j]);
            } else {
                assert(tag_line(lines[lines.len() - 1]) == Some(pair));
            }
        }
        if exists|j: int| 0 <= j < lines.len() && tag_line(#[trigger] lines[j]) == Some(pair) {
            let j = choose|j: int| 0 <= j < lines.len() && tag_line(#[trigger] lines[j]) == Some(pair);
            if j < d.len() {
                assert(d[j] == lines[j]);
                assert(pd.contains(pair));
                let k = choose|k: int| 0 <= k < pd.len() && pd[k] == pair;
                assert(ps[k] == pair);
            } else {
                assert(ps[ps.len() - 1] == pair);
            }
        }
    }
}

proof fn lemma_ids_for_member(pairs: Seq<(Seq<char>, u64)>, t: Seq<char>, id: u64)
    ensures
        ids_for(pairs, t).contains(id) <==> pairs.contains((t, id)),
    decreases pairs.len(),
{
    if pairs.len() > 0 {
        let d = pairs.drop_last();
        lemma_ids_for_member(d, t, id);
        let r = ids_for(pairs, t);
        let rd = ids_for(d, t);
        if r.contains(id) {
            let k = choose|k: int| 0 <= k < r.len() && r[k] == id;
            if k < rd.len() && (pairs.last().0 != t || k < r.len() - 1) {
                assert(rd[k] == id);
                let x = choose|x: int| 0 <= x < d.len() && d[x] == (t, id);
                assert(pairs[x] == (t, id));
            } else {
                assert(pairs[pairs.len() - 1] == (t, id));
            }
        }
        if pairs.contains((t, id)) {
            let x = choose|x: int| 0 <= x < pairs.len() && pairs[x] == (t, id);
            if x < d.len() {
                assert(d[x] == (t, id));
                let k = choose|k: int| 0 <= k < rd.len() && rd[k] == id;
                if pairs.last().0 == t {
                    assert(r[k] == id);
                } else {
                    assert(r[k] == id);
                }
            } else {
                assert(r[r.len() - 1] == id);
            }
        }
    }
}

/// Whether tag line `line` puts `id` under a non-empty name.
pub open spec fn gives_named_tag(line: Seq<char>, id: u64) -> bool {
    match tag_line(line) {
        Some(p) => p.1 == id && p.0.len() > 0,
        None => false,
    }
}

/// An id that a tag line lists with an empty name, and no tag line lists
/// with another name, is among the untagged ids and under no name.
pub proof fn lemma_untagged_only_in_no_tag(idx: TagIndex, lines: Seq<Seq<char>>, id: u64, k: int)
    requires
        idx.indexes(lines),
        0 <= k < lines.len(),
        tag_line(lines[k]) == Some((Seq::<char>::empty(), id)),
        forall|j: int| 0 <= j < lines.len() ==> !#[trigger] gives_named_tag(lines[j], id),
    ensures
        idx.untagged@.contains(id),
        forall|e: int| 0 <= e < idx.tags.len() ==> !(#[trigger] idx.tags@[e]).1@.contains(id),
{
    let pairs = tag_pairs(lines);
    lemma_tag_pairs_member(lines, (Seq::<char>::empty(), id));
    lemma_ids_for_member(pairs, Seq::<char>::empty(), id);
    assert forall|e: int| 0 <= e < idx.tags.len() implies !(#[trigger] idx.tags@[e]).1@.contains(id) by {
        let tv = tag_views(idx.tags@);
        assert(tv[e] == (idx.tags@[e].0@, idx.tags@[e].1@));
        let name = tv[e].0;
        lemma_ids_for_member(pairs, name, id);
        lemma_tag_pairs_member(lines, (name, id));
        if idx.tags@[e].1@.contains(id) {
            let j = choose|j: int| 0 <= j < lines.len() && tag_line(#[trigger] lines[j]) == Some((name, id));
            assert(name.len() > 0);
            assert(gives_named_tag(lines[j], id));
        }
    }
}

} // verus!
