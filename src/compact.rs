//! The geotag pass: readable geotag lines become an id-keyed table of
//! records, leaving out the photos without a tag.
use vstd::prelude::*;
use std::collections::{HashMap, HashSet};
use crate::geotag::{GeoTag, GeoTagView};
use crate::parse::{
    geo_line, parse_string_to_id_geotag, parse_string_to_tag_id, record_view, tag_line,
    GeoTagParseError,
};

verus! {

broadcast use vstd::std_specs::hash::group_hash_axioms;

pub open spec fn line_views(lines: Seq<String>) -> Seq<Seq<char>> {
    lines.map_values(|l: String| l@)
}

pub open spec fn records_view(recs: Seq<(u64, GeoTag)>) -> Seq<(u64, GeoTagView)> {
    recs.map_values(|r: (u64, GeoTag)| (r.0, r.1@))
}

/// `t` with the record `r` in it: in place of the record of the same id,
/// or at the end when there is none.
pub open spec fn table_put(t: Seq<(u64, GeoTagView)>, r: (u64, GeoTagView)) -> Seq<
    (u64, GeoTagView),
> {
    if exists|k: int| 0 <= k < t.len() && t[k].0 == r.0 {
        t.update(choose|k: int| 0 <= k < t.len() && t[k].0 == r.0, r)
    } else {
        t.push(r)
    }
}

/// The table of records that the lines read as: ids in the order in which
/// they first come, each with the record of its last line.
pub open spec fn geotag_table(lines: Seq<Seq<char>>, excluded: Set<u64>) -> Seq<
    (u64, GeoTagView),
>
    decreases lines.len(),
{
    if lines.len() == 0 {
        Seq::empty()
    } else {
        let t = geotag_table(lines.drop_last(), excluded);
        match geo_line(lines.last(), excluded) {
            Ok(r) => table_put(t, r),
            Err(_) => t,
        }
    }
}

/// The positions of the lines that lack the geotag shape or whose time does
/// not read (the excluded ones are not among them).
pub open spec fn unmatched_lines(lines: Seq<Seq<char>>, excluded: Set<u64>) -> Seq<int>
    decreases lines.len(),
{
    if lines.len() == 0 {
        Seq::empty()
    } else {
        let u = unmatched_lines(lines.drop_last(), excluded);
        if geo_line(lines.last(), excluded) == Err::<(u64, GeoTagView), GeoTagParseError>(
            GeoTagParseError::NoMatch,
        ) {
            u.push(lines.len() - 1)
        } else {
            u
        }
    }
}

pub open spec fn distinct_ids(t: Seq<(u64, GeoTagView)>) -> bool {
    forall|a: int, b: int| 0 <= a < b < t.len() ==> t[a].0 != t[b].0
}

pub struct CompactedGeotags {
    /// The table, as (id, record) pairs.
    pub records: Vec<(u64, GeoTag)>,
    /// Positions of the lines that gave no record and were not excluded.
    pub unmatched: Vec<usize>,
}

/// Reads geotag lines into the id-keyed table, skipping the ids in
/// `no_tags`.
pub fn compact_geotags(lines: &Vec<String>, no_tags: &HashSet<u64>) -> (r: CompactedGeotags)
    ensures
        records_view(r.records@) == geotag_table(line_views(lines@), no_tags@),
        distinct_ids(records_view(r.records@)),
        forall|k: int| 0 <= k < r.records.len() ==> (#[trigger] r.records@[k]).1@.wf(),
        r.unmatched@.map_values(|k: usize| k as int) == unmatched_lines(
            line_views(lines@),
            no_tags@,
        ),
{
    let ghost ls = line_views(lines@);
    let mut records: Vec<(u64, GeoTag)> = Vec::new();
    let mut unmatched: Vec<usize> = Vec::new();
    let mut pos: HashMap<u64, usize> = HashMap::new();
    let mut i: usize = 0;
    while i < lines.len()
        invariant
            i <= lines.len(),
            ls == line_views(lines@),
            records_view(records@) == geotag_table(ls.take(i as int), no_tags@),
            distinct_ids(records_view(records@)),
            forall|k: int| 0 <= k < records.len() ==> (#[trigger] records@[k]).1@.wf(),
            unmatched@.map_values(|k: usize| k as int) == unmatched_lines(
                ls.take(i as int),
                no_tags@,
            ),
            forall|id: u64| #[trigger]
                pos@.contains_key(id) <==> exists|k: int|
                    0 <= k < records.len() && records@[k].0 == id,
            forall|id: u64| #[trigger]
                pos@.contains_key(id) ==> pos@[id] < records.len() && records@[pos@[id] as int].0
                    == id,
        decreases lines.len() - i,
    {
        let ghost before = records_view(records@);
        let res = parse_string_to_id_geotag(lines[i].as_str(), no_tags);
        assert(ls.take(i + 1).drop_last() =~= ls.take(i as int));
        assert(ls.take(i + 1).last() == lines@[i as int]@);
        match res {
            Ok((id, g)) => {
                let ghost rv = (id, g@);
                match pos.get(&id) {
                    Some(k) => {
                        let k = *k;
                        assert(before[k as int].0 == id);
                        let ghost old_recs = records@;
                        records.set(k, (id, g));
                        proof {
                            assert forall|id2: u64| #[trigger]
                                pos@.contains_key(id2) <==> exists|k2: int|
                                    0 <= k2 < records.len() && records@[k2].0 == id2 by {
                                if pos@.contains_key(id2) {
                                    let k2 = choose|k2: int|
                                        0 <= k2 < old_recs.len() && old_recs[k2].0 == id2;
                                    assert(records@[k2].0 == id2);
                                }
                                if exists|k2: int| 0 <= k2 < records.len() && records@[k2].0 == id2 {
                                    let k2 = choose|k2: int|
                                        0 <= k2 < records.len() && records@[k2].0 == id2;
                                    assert(old_recs[k2].0 == id2);
                                }
                            }
                            let c = choose|c: int| 0 <= c < before.len() && before[c].0 == id;
                            assert(c == k);
                            assert(records_view(records@) =~= before.update(k as int, rv));
                        }
                    },
                    None => {
                        assert(!exists|k: int| 0 <= k < before.len() && before[k].0 == id) by {
                            if exists|k: int| 0 <= k < before.len() && before[k].0 == id {
                                let k = choose|k: int| 0 <= k < before.len() && before[k].0 == id;
                                assert(records@[k].0 == id);
                            }
                        }
                        let ghost old_recs = records@;
                        pos.insert(id, records.len());
                        records.push((id, g));
                        assert forall|id2: u64| #[trigger]
                            pos@.contains_key(id2) <==> exists|k2: int|
                                0 <= k2 < records.len() && records@[k2].0 == id2 by {
                            if pos@.contains_key(id2) && id2 != id {
                                let k2 = choose|k2: int|
                                    0 <= k2 < old_recs.len() && old_recs[k2].0 == id2;
                                assert(records@[k2].0 == id2);
                            }
                            if id2 == id {
                                assert(records@[old_recs.len() as int].0 == id2);
                            }
                            if exists|k2: int| 0 <= k2 < records.len() && records@[k2].0 == id2 {
                                let k2 = choose|k2: int|
                                    0 <= k2 < records.len() && records@[k2].0 == id2;
                                if k2 < old_recs.len() {
                                    assert(old_recs[k2].0 == id2);
                                }
                            }
                        }
                        assert(records_view(records@) =~= before.push(rv));
                    },
                }
            },
            Err(e) => {
                match e {
                    GeoTagParseError::NoMatch => {
                        let ghost before_u = unmatched@;
                        unmatched.push(i);
                        assert(unmatched@.map_values(|k: usize| k as int) =~= before_u.map_values(
                            |k: usize| k as int,
                        ).push(i as int));
                    },
                    GeoTagParseError::NoTag(_) => {},
                }
            },
        }
        i = i + 1;
    }
    assert(ls.take(lines.len() as int) =~= ls);
    CompactedGeotags { records, unmatched }
}

/// No record of the table carries an id of the excluded set.
pub proof fn lemma_excluded_never_kept(lines: Seq<Seq<char>>, excluded: Set<u64>, id: u64)
    requires
        excluded.contains(id),
    ensures
        forall|k: int|
            0 <= k < geotag_table(lines, excluded).len() ==> #[trigger] geotag_table(
                lines,
                excluded,
            )[k].0 != id,
    decreases lines.len(),
{
    if lines.len() > 0 {
        let t = geotag_table(lines.drop_last(), excluded);
        lemma_excluded_never_kept(lines.drop_last(), excluded, id);
        if let Ok(r) = geo_line(lines.last(), excluded) {
            assert(r.0 != id);
            let t2 = table_put(t, r);
            assert forall|k: int| 0 <= k < t2.len() implies t2[k].0 != id by {
                if k < t.len() {
                    assert(t2[k] == t[k] || t2[k] == r);
                }
            }
        }
    }
}

/// The records of the lines that read, none excluded, in line order, a
/// repeated id kept each time.
pub open spec fn record_list(lines: Seq<Seq<char>>) -> Seq<(u64, GeoTagView)>
    decreases lines.len(),
{
    if lines.len() == 0 {
        Seq::empty()
    } else {
        let t = record_list(lines.drop_last());
        match geo_line(lines.last(), Set::empty()) {
            Ok(r) => t.push(r),
            Err(_) => t,
        }
    }
}

proof fn lemma_record_list_prefix(lines: Seq<Seq<char>>, i: int)
    requires
        0 <= i <= lines.len(),
    ensures
        record_list(lines.take(i)).len() <= record_list(lines).len(),
        record_list(lines.take(i)) == record_list(lines).take(record_list(lines.take(i)).len() as int),
    decreases lines.len() - i,
{
    if i == lines.len() {
        assert(lines.take(i) =~= lines);
    } else {
        lemma_record_list_prefix(lines, i + 1);
        assert(lines.take(i + 1).drop_last() =~= lines.take(i));
        let a = record_list(lines.take(i));
        let b = record_list(lines.take(i + 1));
        let c = record_list(lines);
        assert(a =~= b.take(a.len() as int));
        assert(b.take(a.len() as int) =~= c.take(a.len() as int));
    }
}

/// The records of the first `num` geotag lines that read, with no id
/// excluded.
pub fn first_geotags(lines: &Vec<String>, num: usize) -> (r: Vec<(u64, GeoTag)>)
    ensures
        forall|k: int| 0 <= k < r.len() ==> (#[trigger] r@[k]).1@.wf(),
        records_view(r@) == record_list(line_views(lines@)).take(
            if record_list(line_views(lines@)).len() <= num {
                record_list(line_views(lines@)).len() as int
            } else {
                num as int
            },
        ),
{
    let ghost ls = line_views(lines@);
    let none: HashSet<u64> = HashSet::new();
    let mut out: Vec<(u64, GeoTag)> = Vec::new();
    let mut i: usize = 0;
    while i < lines.len() && out.len() < num
        invariant
            i <= lines.len(),
            ls == line_views(lines@),
            none@ == Set::<u64>::empty(),
            out.len() <= num,
            forall|k: int| 0 <= k < out.len() ==> (#[trigger] out@[k]).1@.wf(),
            records_view(out@) == record_list(ls.take(i as int)),
        decreases lines.len() - i,
    {
        assert(ls.take(i + 1).drop_last() =~= ls.take(i as int));
        assert(ls.take(i + 1).last() == lines@[i as int]@);
        let ghost before = records_view(out@);
        match parse_string_to_id_geotag(lines[i].as_str(), &none) {
            Ok(rec) => {
                let ghost rv = (rec.0, rec.1@);
                out.push(rec);
                assert(records_view(out@) =~= before.push(rv));
            },
            Err(_) => {},
        }
        i = i + 1;
    }
    proof {
        lemma_record_list_prefix(ls, i as int);
        if i == lines.len() {
            assert(ls.take(i as int) =~= ls);
        }
    }
    out
}

/// The tag lines that read and whose id is in `keep`, in order.
pub open spec fn kept_tag_lines(lines: Seq<Seq<char>>, keep: Set<u64>) -> Seq<Seq<char>>
    decreases lines.len(),
{
    if lines.len() == 0 {
        Seq::empty()
    } else {
        let t = kept_tag_lines(lines.drop_last(), keep);
        match tag_line(lines.last()) {
            Some(p) => if keep.contains(p.1) {
                t.push(lines.last())
            } else {
                t
            },
            None => t,
        }
    }
}

/// The tag lines whose id is in `keep`, in order.
pub fn select_tag_lines(lines: &Vec<String>, keep: &HashSet<u64>) -> (r: Vec<String>)
    ensures
        line_views(r@) == kept_tag_lines(line_views(lines@), keep@),
{
    let ghost ls = line_views(lines@);
    let mut out: Vec<String> = Vec::new();
    let mut i: usize = 0;
    while i < lines.len()
        invariant
            i <= lines.len(),
            ls == line_views(lines@),
            line_views(out@) == kept_tag_lines(ls.take(i as int), keep@),
        decreases lines.len() - i,
    {
        assert(ls.take(i + 1).drop_last() =~= ls.take(i as int));
        assert(ls.take(i + 1).last() == lines@[i as int]@);
        let ghost before = line_views(out@);
        match parse_string_to_tag_id(lines[i].as_str()) {
            Some((_, id)) => {
                if keep.contains(&id) {
                    let l = lines[i].clone();
                    out.push(l);
                    assert(line_views(out@) =~= before.push(lines@[i as int]@));
                }
            },
            None => {},
        }
        i = i + 1;
    }
    assert(ls.take(i as int) =~= ls);
    out
}

/// The table that records build when put in one after the other: ids in
/// the order in which they first come, each with its last record.
pub open spec fn record_table(recs: Seq<(u64, GeoTagView)>) -> Seq<(u64, GeoTagView)>
    decreases recs.len(),
{
    if recs.len() == 0 {
        Seq::empty()
    } else {
        table_put(record_table(recs.drop_last()), recs.last())
    }
}

/// A record that no later record of the same id follows stands in the
/// table unchanged.
pub proof fn lemma_record_table_keeps_last(recs: Seq<(u64, GeoTagView)>, k: int)
    requires
        0 <= k < recs.len(),
        forall|j: int| k < j < recs.len() ==> (#[trigger] recs[j]).0 != recs[k].0,
    ensures
        exists|e: int|
            0 <= e < record_table(recs).len() && #[trigger] record_table(recs)[e] == recs[k],
    decreases recs.len(),
{
    let d = recs.drop_last();
    let t = record_table(d);
    let x = recs.last();
    let t2 = record_table(recs);
    if k == recs.len() - 1 {
        if exists|c: int| 0 <= c < t.len() && t[c].0 == x.0 {
            let c = choose|c: int| 0 <= c < t.len() && t[c].0 == x.0;
            assert(t2[c] == x);
        } else {
            assert(t2[t.len() as int] == x);
        }
    } else {
        assert forall|j: int| k < j < d.len() implies (#[trigger] d[j]).0 != d[k].0 by {
            assert(d[j] == recs[j]);
        }
        lemma_record_table_keeps_last(d, k);
        let e = choose|e: int| 0 <= e < t.len() && #[trigger] t[e] == d[k];
        assert(x.0 != recs[k].0);
        if exists|c: int| 0 <= c < t.len() && t[c].0 == x.0 {
            let c = choose|c: int| 0 <= c < t.len() && t[c].0 == x.0;
            assert(c != e);
            assert(t2[e] == recs[k]);
        } else {
            assert(t2[e] == recs[k]);
        }
    }
}

/// The id-keyed table of `records`: a later record of an id replaces the
/// earlier one in its place.
pub fn table_of_records(records: &Vec<(u64, GeoTag)>) -> (r: Vec<(u64, GeoTag)>)
    ensures
        records_view(r@) == record_table(records_view(records@)),
        distinct_ids(records_view(r@)),
        (forall|k: int| 0 <= k < records.len() ==> (#[trigger] records@[k]).1@.wf()) ==> forall|
            k: int,
        |
            0 <= k < r.len() ==> (#[trigger] r@[k]).1@.wf(),
{
    let ghost rs = records_view(records@);
    let ghost all_wf = forall|k: int| 0 <= k < records.len() ==> (#[trigger] records@[k]).1@.wf();
    let mut table: Vec<(u64, GeoTag)> = Vec::new();
    let mut pos: HashMap<u64, usize> = HashMap::new();
    let mut i: usize = 0;
    while i < records.len()
        invariant
            i <= records.len(),
            rs == records_view(records@),
            all_wf == forall|k: int| 0 <= k < records.len() ==> (#[trigger] records@[k]).1@.wf(),
            records_view(table@) == record_table(rs.take(i as int)),
            distinct_ids(records_view(table@)),
            all_wf ==> forall|k: int| 0 <= k < table.len() ==> (#[trigger] table@[k]).1@.wf(),
            forall|id: u64| #[trigger]
                pos@.contains_key(id) <==> exists|k: int|
                    0 <= k < table.len() && table@[k].0 == id,
            forall|id: u64| #[trigger]
                pos@.contains_key(id) ==> pos@[id] < table.len() && table@[pos@[id] as int].0 == id,
        decreases records.len() - i,
    {
        let ghost before = records_view(table@);
        assert(rs.take(i + 1).drop_last() =~= rs.take(i as int));
        assert(rs.take(i + 1).last() == rs[i as int]);
        let id = records[i].0;
        let g = records[i].1.copy();
        let ghost rv = (id, g@);
        assert(all_wf ==> records@[i as int].1@.wf());
        let ghost old_recs = table@;
        match pos.get(&id) {
            Some(k) => {
                let k = *k;
                assert(before[k as int].0 == id);
                table.set(k, (id, g));
                proof {
                    let c = choose|c: int| 0 <= c < before.len() && before[c].0 == id;
                    assert(c == k);
                    assert(records_view(table@) =~= before.update(k as int, rv));
                    assert forall|id2: u64| #[trigger]
                        pos@.contains_key(id2) <==> exists|k2: int|
                            0 <= k2 < table.len() && table@[k2].0 == id2 by {
                        if pos@.contains_key(id2) {
                            let k2 = choose|k2: int|
                                0 <= k2 < old_recs.len() && old_recs[k2].0 == id2;
                            assert(table@[k2].0 == id2);
                        }
                        if exists|k2: int| 0 <= k2 < table.len() && table@[k2].0 == id2 {
                            let k2 = choose|k2: int| 0 <= k2 < table.len() && table@[k2].0 == id2;
                            assert(old_recs[k2].0 == id2);
                        }
                    }
                }
            },
            None => {
                assert(!exists|k: int| 0 <= k < before.len() && before[k].0 == id) by {
                    if exists|k: int| 0 <= k < before.len() && before[k].0 == id {
                        let k = choose|k: int| 0 <= k < before.len() && before[k].0 == id;
                        assert(table@[k].0 == id);
                    }
                }
                pos.insert(id, table.len());
                table.push((id, g));
                assert(records_view(table@) =~= before.push(rv));
                assert forall|id2: u64| #[trigger]
                    pos@.contains_key(id2) <==> exists|k2: int|
                        0 <= k2 < table.len() && table@[k2].0 == id2 by {
                    if pos@.contains_key(id2) && id2 != id {
                        let k2 = choose|k2: int| 0 <= k2 < old_recs.len() && old_recs[k2].0 == id2;
                        assert(table@[k2].0 == id2);
                    }
                    if id2 == id {
                        assert(table@[old_recs.len() as int].0 == id2);
                    }
                    if exists|k2: int| 0 <= k2 < table.len() && table@[k2].0 == id2 {
                        let k2 = choose|k2: int| 0 <= k2 < table.len() && table@[k2].0 == id2;
                        if k2 < old_recs.len() {
                            assert(old_recs[k2].0 == id2);
                        }
                    }
                }
            },
        }
        i = i + 1;
    }
    assert(rs.take(records.len() as int) =~= rs);
    table
}

} // verus!
