use std::collections::HashSet;
use tag_geotag::compact::{compact_geotags, first_geotags, select_tag_lines, table_of_records};
use tag_geotag::geotag::GeoTag;
use tag_geotag::parse::{parse_string_to_id_geotag, parse_string_to_tag_id, GeoTagParseError};
use tag_geotag::rank::{hikaku, top_recent, ultimate, ENTRY_COUNT};
use tag_geotag::tags::{index_tag_lines, parse_counted_line, plain_line_of};

fn lines(v: &[&str]) -> Vec<String> {
    v.iter().map(|s| s.to_string()).collect()
}

fn geo_line(id: u64, time: &str, domain: u8, path: &str, hex: &str) -> String {
    format!(
        "{},\"{}\",35.6895,139.6917,http://farm{}.static.flickr.com/{}/{}_{}.jpg",
        id, time, domain, path, id, hex
    )
}

fn record(time: i32) -> GeoTag {
    GeoTag {
        time,
        latitude: "1.5".to_string(),
        longitude: "-2.25".to_string(),
        domain_num: 1,
        url_num1: 7,
        url_num2: 0xab,
    }
}

#[test]
fn tag_pp_scenario() {
    let pass = index_tag_lines(&lines(&["1,vacation", "2,", "3,vacation"]));
    assert!(pass.unread.is_empty());
    assert_eq!(pass.index.to_lines(), vec!["NO_TAG,1,2", "vacation,2,1,3"]);
}

#[test]
fn tag_pp_orders_names_and_reports_unread() {
    let pass = index_tag_lines(&lines(&["5,zeta", "x,bad", "6,alpha", "7,", "8,zeta", "9"]));
    assert_eq!(pass.unread, vec![1, 5]);
    assert_eq!(
        pass.index.to_lines(),
        vec!["NO_TAG,1,7", "alpha,1,6", "zeta,2,5,8"]
    );
}

#[test]
fn tag_pp_empty_input_still_writes_no_tag() {
    let pass = index_tag_lines(&Vec::new());
    assert_eq!(pass.index.to_lines(), vec!["NO_TAG,0,"]);
}

#[test]
fn tag_pp_prefix_names_come_first() {
    let pass = index_tag_lines(&lines(&["1,ab", "2,a", "3,b", "4,a"]));
    assert_eq!(pass.index.to_lines(), vec!["NO_TAG,0,", "a,2,2,4", "ab,1,1", "b,1,3"]);
}

#[test]
fn tag_line_reads_plain_quoted_and_empty_names() {
    assert_eq!(parse_string_to_tag_id("7,sunset"), Some(("sunset".to_string(), 7)));
    assert_eq!(
        parse_string_to_tag_id("7,\"\"\"hello, world\"\"\""),
        Some(("hello, world".to_string(), 7))
    );
    assert_eq!(parse_string_to_tag_id("7,"), Some((String::new(), 7)));
    assert_eq!(parse_string_to_tag_id("7,\"\"quoted\""), Some(("\"\"quoted\"".to_string(), 7)));
}

#[test]
fn tag_line_rejects_other_shapes() {
    assert_eq!(parse_string_to_tag_id("x7,sunset"), None);
    assert_eq!(parse_string_to_tag_id(",sunset"), None);
    assert_eq!(parse_string_to_tag_id("12"), None);
    assert_eq!(parse_string_to_tag_id("99999999999999999999,a"), None);
    assert_eq!(parse_string_to_tag_id("1,a\nb"), None);
}

#[test]
fn tag_line_round_trip_concrete() {
    for (tag, id) in [("beach", 42u64), ("", 0), ("a,b", u64::MAX)] {
        let line = format!("{},{}", id, tag);
        assert_eq!(parse_string_to_tag_id(&line), Some((tag.to_string(), id)));
    }
}

#[test]
fn geotag_pp_scenario() {
    let line = geo_line(12345678, "2008-01-01 00:00:00", 3, "42", "00000000ab");
    let (id, g) = parse_string_to_id_geotag(&line, &HashSet::new()).unwrap();
    assert_eq!(id, 12345678);
    assert_eq!(g.time, 1199145600);
    assert_eq!(g.to_row(id), "12345678,1199145600,35.6895,139.6917,3,42,00000000ab");
}

#[test]
fn geotag_fields_round_trip_concrete() {
    let line = geo_line(9876543210, "1999-12-31 23:59:59", 0, "7", "ffffffffff");
    let (id, g) = parse_string_to_id_geotag(&line, &HashSet::new()).unwrap();
    assert_eq!(g.domain_num, 0);
    assert_eq!(g.url_num1, 7);
    assert_eq!(g.url_num2, 0xff_ffff_ffff);
    assert_eq!(g.to_row(id), "9876543210,946684799,35.6895,139.6917,0,7,ffffffffff");
}

#[test]
fn geotag_time_truncates_to_32_bits() {
    let line = geo_line(12345678, "2100-01-01 00:00:00", 1, "1", "0000000001");
    let (_, g) = parse_string_to_id_geotag(&line, &HashSet::new()).unwrap();
    assert_eq!(g.time, 4102444800i64 as i32);
    let early = geo_line(12345678, "1960-01-01 00:00:00", 1, "1", "0000000001");
    let (id, g) = parse_string_to_id_geotag(&early, &HashSet::new()).unwrap();
    assert_eq!(g.time, -315619200);
    assert!(g.to_row(id).starts_with("12345678,-315619200,"));
}

#[test]
fn geotag_excluded_id_gives_no_tag() {
    let line = geo_line(12345678, "2008-01-01 00:00:00", 3, "42", "00000000ab");
    let excluded: HashSet<u64> = [12345678u64].into_iter().collect();
    assert_eq!(
        parse_string_to_id_geotag(&line, &excluded).err(),
        Some(GeoTagParseError::NoTag(12345678))
    );
}

#[test]
fn geotag_bad_lines_give_no_match() {
    let none = HashSet::new();
    let bad = [
        "not a geotag line".to_string(),
        geo_line(1234567, "2008-01-01 00:00:00", 3, "42", "00000000ab"),
        geo_line(12345678, "2008-13-01 00:00:00", 3, "42", "00000000ab"),
        geo_line(12345678, "2008-01-01 00:00:00", 3, "42", "00000000AB"),
        geo_line(12345678, "2008-01-01 00:00:00", 3, "12345", "00000000ab"),
        "12345678,\"2008-01-01 00:00:00\",1,2,http://farm3.static.flickr.com/42/87654321_00000000ab.jpg"
            .to_string(),
        "12345678,2008-01-01 00:00:00,1,2,http://farm3.static.flickr.com/42/12345678_00000000ab.jpg"
            .to_string(),
        "12345678,\"2008-01-01 00:00:00\",1,2,http://farm3.static.flickr.com/42/12345678_00000000ab.png"
            .to_string(),
    ];
    for line in bad.iter() {
        assert_eq!(
            parse_string_to_id_geotag(line, &none).err(),
            Some(GeoTagParseError::NoMatch),
            "{}",
            line
        );
    }
}

#[test]
fn compact_skips_excluded_and_keeps_last_record() {
    let ls = vec![
        geo_line(11111111, "2008-01-01 00:00:00", 1, "1", "0000000001"),
        geo_line(22222222, "2008-01-01 00:00:00", 2, "2", "0000000002"),
        "garbage".to_string(),
        geo_line(11111111, "2009-01-01 00:00:00", 3, "3", "0000000003"),
    ];
    let excluded: HashSet<u64> = [22222222u64].into_iter().collect();
    let c = compact_geotags(&ls, &excluded);
    assert_eq!(c.unmatched, vec![2]);
    assert_eq!(c.records.len(), 1);
    assert_eq!(c.records[0].0, 11111111);
    assert_eq!(c.records[0].1.domain_num, 3);
    assert!(c.records.iter().all(|r| !excluded.contains(&r.0)));
}

#[test]
fn first_geotags_takes_the_first_readable_lines() {
    let ls = vec![
        "garbage".to_string(),
        geo_line(11111111, "2008-01-01 00:00:00", 1, "1", "0000000001"),
        geo_line(22222222, "2008-01-01 00:00:00", 2, "2", "0000000002"),
        geo_line(33333333, "2008-01-01 00:00:00", 3, "3", "0000000003"),
    ];
    let r = first_geotags(&ls, 2);
    assert_eq!(r.iter().map(|p| p.0).collect::<Vec<_>>(), vec![11111111, 22222222]);
    assert_eq!(first_geotags(&ls, 10).len(), 3);
}

#[test]
fn select_tag_lines_keeps_sampled_ids() {
    let keep: HashSet<u64> = [1u64, 3].into_iter().collect();
    let r = select_tag_lines(&lines(&["1,a", "2,b", "bad", "3,"]), &keep);
    assert_eq!(r, vec!["1,a", "3,"]);
}

#[test]
fn counted_lines_read_back() {
    assert_eq!(parse_counted_line("NO_TAG,0,"), Some(("NO_TAG".to_string(), vec![])));
    assert_eq!(parse_counted_line("vacation,2,1,3"), Some(("vacation".to_string(), vec![1, 3])));
    assert_eq!(parse_counted_line("vacation,3,1,3"), None);
    assert_eq!(parse_counted_line("vacation,2,1,,3"), None);
    assert_eq!(parse_counted_line("vacation"), None);
}

#[test]
fn plain_line_writes_name_and_ids() {
    assert_eq!(plain_line_of(&"sea".to_string(), &vec![4, 5]), "sea,4,5");
}

#[test]
fn rows_read_back() {
    let g = record(-5);
    let row = g.to_row(77);
    assert_eq!(row, "77,-5,1.5,-2.25,1,7,00000000ab");
    let (id, back) = GeoTag::from_str_to_geotag(&row).unwrap();
    assert_eq!(id, 77);
    assert_eq!(back.to_row(id), row);
    assert!(GeoTag::from_str_to_geotag("77,-5,1.5,-2.25,12,7,00000000ab").is_none());
    assert!(GeoTag::from_str_to_geotag("77,x,1.5,-2.25,1,7,00000000ab").is_none());
}

#[test]
fn top_recent_is_stable_and_bounded() {
    let ids = vec![10, 11, 12, 13, 14];
    let times = vec![5, 9, 5, 9, 1];
    assert_eq!(top_recent(&ids, &times, 3), vec![11, 13, 10]);
    assert_eq!(top_recent(&ids, &times, 10), vec![11, 13, 10, 12, 14]);
    assert_eq!(top_recent(&ids, &times, 0), Vec::<u64>::new());
}

#[test]
fn ultimate_keeps_at_most_entry_count_most_recent() {
    let rows: Vec<(u64, GeoTag)> = (0..150u64).map(|i| (i, record(i as i32 % 120))).collect();
    let tags = vec![("many".to_string(), (0..150u64).collect::<Vec<_>>())];
    let u = ultimate(&tags, &rows);
    let kept = &u.tags[0].ids;
    assert_eq!(kept.len(), ENTRY_COUNT);
    assert_eq!(kept[0], 119);
    for w in kept.windows(2) {
        assert!(rows[w[0] as usize].1.time >= rows[w[1] as usize].1.time);
    }
    assert!(kept.iter().all(|x| tags[0].1.contains(x)));
}

#[test]
fn ultimate_writes_each_kept_id_once() {
    let rows = vec![(1, record(10)), (2, record(20)), (3, record(30))];
    let tags = vec![
        ("a".to_string(), vec![3, 1, 9]),
        ("b".to_string(), vec![1, 2]),
    ];
    let u = ultimate(&tags, &rows);
    assert_eq!(u.tags[0].name, "a");
    assert_eq!(u.tags[0].ids, vec![3, 1]);
    assert_eq!(u.tags[0].missing, vec![9]);
    assert_eq!(u.tags[1].ids, vec![2, 1]);
    assert_eq!(u.ids, vec![1, 2, 3]);
    assert_eq!(u.rows[0], "1,10,1.5,-2.25,1,7,00000000ab");
    assert_eq!(u.rows.len(), 3);
}

#[test]
fn ultimate_uses_the_last_row_of_an_id() {
    let rows = vec![(1, record(10)), (2, record(20)), (1, record(30))];
    let tags = vec![("a".to_string(), vec![2, 1])];
    let u = ultimate(&tags, &rows);
    assert_eq!(u.tags[0].ids, vec![1, 2]);
    assert_eq!(u.rows[0], "1,30,1.5,-2.25,1,7,00000000ab");
}

#[test]
fn hikaku_scenario() {
    let tags = vec![("x".to_string(), vec![1, 2]), ("y".to_string(), vec![3, 1])];
    let rows = vec![(1, record(0)), (2, record(0))];
    assert_eq!(hikaku(&tags, &rows), vec![3]);
}

#[test]
fn parse_errors_explain_themselves() {
    assert_eq!(GeoTagParseError::NoTag(42).message(), "42 is in NO_TAGS");
    assert_eq!(
        GeoTagParseError::NoMatch.message(),
        "the line didn't match the regex"
    );
}

#[test]
fn counted_lines_round_trip() {
    let pass = index_tag_lines(&lines(&["10,sea", "11,", "12,sea", "13,sky"]));
    let written = pass.index.to_lines();
    let read: Vec<(String, Vec<u64>)> =
        written.iter().map(|l| parse_counted_line(l).unwrap()).collect();
    assert_eq!(
        read,
        vec![
            ("NO_TAG".to_string(), vec![11]),
            ("sea".to_string(), vec![10, 12]),
            ("sky".to_string(), vec![13]),
        ]
    );
}

#[test]
fn record_table_keeps_first_place_and_last_record() {
    let recs = vec![(5, record(1)), (6, record(2)), (5, record(3))];
    let t = table_of_records(&recs);
    assert_eq!(t.iter().map(|r| (r.0, r.1.time)).collect::<Vec<_>>(), vec![(5, 3), (6, 2)]);
}
