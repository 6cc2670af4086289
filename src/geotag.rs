//! One photo's geotag record and the compact row that holds it.
use vstd::prelude::*;
use crate::text::{
    all_digits, all_hex_digits, chars_of, count_char, lemma_count_absent, lemma_count_add, decimal_of, decimal_u64, digit_value, find_char, find_from,
    hex_of_width, hex_value, is_digit, is_digit_char, lemma_decimal_of, lemma_decimal_of_len,
    lemma_find_from, lemma_find_from_at, lemma_hex_of_width, lemma_hex_value_bound, pow10,
    parse_decimal, parse_hex10, pow16, push_decimal, push_hex_width, push_str, string_of,
};

verus! {

/// What comes before the domain digit in a photo URL.
pub const URL_PREFIX: &'static str = "http://farm";

/// What stands between the domain digit and the path segment.
pub const URL_COMMON: &'static str = ".static.flickr.com/";

/// What ends a photo URL.
pub const URL_SUFFIX: &'static str = ".jpg";

/// A photo's capture time, coordinates and URL components.
///
/// The coordinates are carried as the decimal text they were written with;
/// the URL is `URL_PREFIX <domain_num> URL_COMMON <url_num1> / <id> _
/// <url_num2 in ten hex digits> URL_SUFFIX`.
pub struct GeoTag {
    pub time: i32,
    pub latitude: String,
    pub longitude: String,
    pub domain_num: u8,
    pub url_num1: u16,
    pub url_num2: u64,
}

pub struct GeoTagView {
    pub time: i32,
    pub latitude: Seq<char>,
    pub longitude: Seq<char>,
    pub domain_num: u8,
    pub url_num1: u16,
    pub url_num2: u64,
}

impl View for GeoTag {
    type V = GeoTagView;

    open spec fn view(&self) -> GeoTagView {
        GeoTagView {
            time: self.time,
            latitude: self.latitude@,
            longitude: self.longitude@,
            domain_num: self.domain_num,
            url_num1: self.url_num1,
            url_num2: self.url_num2,
        }
    }
}

/// A decimal numeral with a sign in front when negative.
pub open spec fn signed_decimal_of(t: int) -> Seq<char> {
    if t < 0 {
        seq!['-'] + decimal_of((-t) as nat)
    } else {
        decimal_of(t as nat)
    }
}

impl GeoTagView {
    /// The URL components fit the URL's shape: one domain digit, at most
    /// four path digits, ten hexadecimal digits.
    pub open spec fn wf(self) -> bool {
        &&& self.domain_num <= 9
        &&& self.url_num1 <= 9999
        &&& self.url_num2 < pow16(10)
    }
}

/// The compact row of a record:
/// `<id>,<time>,<lat>,<lon>,<domain>,<path>,<ten hex digits>`.
pub open spec fn row_of(id: u64, g: GeoTagView) -> Seq<char> {
    decimal_of(id as nat) + seq![','] + signed_decimal_of(g.time as int) + seq![','] + g.latitude
        + seq![','] + g.longitude + seq![','] + decimal_of(g.domain_num as nat) + seq![',']
        + decimal_of(g.url_num1 as nat) + seq![','] + hex_of_width(g.url_num2 as nat, 10)
}

pub fn push_signed_decimal(out: &mut String, t: i32)
    ensures
        final(out)@ == old(out)@ + signed_decimal_of(t as int),
{
    if t < 0 {
        out.push('-');
        let m = (0i64 - t as i64) as u64;
        push_decimal(out, m);
        assert(final(out)@ =~= old(out)@ + signed_decimal_of(t as int));
    } else {
        push_decimal(out, t as u64);
    }
}

impl GeoTag {
    /// Whether the URL components fit the URL's shape.
    pub fn is_wf(&self) -> (r: bool)
        ensures
            r == self@.wf(),
    {
        proof {
            reveal_with_fuel(pow16, 11);
        }
        self.domain_num <= 9 && self.url_num1 <= 9999 && self.url_num2 < 0x100_0000_0000
    }

    /// A record with the same fields.
    pub fn copy(&self) -> (r: GeoTag)
        ensures
            r@ == self@,
    {
        GeoTag {
            time: self.time,
            latitude: self.latitude.clone(),
            longitude: self.longitude.clone(),
            domain_num: self.domain_num,
            url_num1: self.url_num1,
            url_num2: self.url_num2,
        }
    }

    /// The compact row of this record under `id`.
    pub fn to_row(&self, id: u64) -> (r: String)
        requires
            self@.wf(),
        ensures
            r@ == row_of(id, self@),
    {
        let mut out = String::new();
        push_decimal(&mut out, id);
        out.push(',');
        push_signed_decimal(&mut out, self.time);
        out.push(',');
        push_str(&mut out, &self.latitude);
        out.push(',');
        push_str(&mut out, &self.longitude);
        out.push(',');
        push_decimal(&mut out, self.domain_num as u64);
        out.push(',');
        push_decimal(&mut out, self.url_num1 as u64);
        out.push(',');
        push_hex_width(&mut out, self.url_num2, 10);
        assert(out@ =~= row_of(id, self@));
        out
    }
}

/// A decimal numeral with an optional minus sign, as an `i32`, when it
/// fits.
pub open spec fn signed_i32(s: Seq<char>) -> Option<i32> {
    if s.len() > 0 && s[0] == '-' {
        if decimal_u64(s.skip(1)) is Some && decimal_u64(s.skip(1))->0 <= 0x8000_0000 {
            Some((-(decimal_u64(s.skip(1))->0 as int)) as i32)
        } else {
            None
        }
    } else if decimal_u64(s) is Some && decimal_u64(s)->0 <= 0x7fff_ffff {
        Some(decimal_u64(s)->0 as i32)
    } else {
        None
    }
}

/// A compact row read back: seven comma-separated fields, the id, the time,
/// two non-empty coordinates, one domain digit, one to four path digits and
/// ten lowercase hexadecimal digits.
pub open spec fn row_parse(s: Seq<char>) -> Option<(u64, GeoTagView)> {
    let c1 = find_from(s, 0, ',');
    let c2 = find_from(s, c1 + 1, ',');
    let c3 = find_from(s, c2 + 1, ',');
    let c4 = find_from(s, c3 + 1, ',');
    let c5 = find_from(s, c4 + 1, ',');
    let c6 = find_from(s, c5 + 1, ',');
    let id = decimal_u64(s.subrange(0, c1));
    let time = signed_i32(s.subrange(c1 + 1, c2));
    let path = s.subrange(c5 + 1, c6);
    let hex = s.subrange(c6 + 1, s.len() as int);
    if c6 < s.len() && id is Some && time is Some && c2 + 1 < c3 && c3 + 1 < c4 && c5 == c4 + 2
        && is_digit(s[c4 + 1]) && 1 <= path.len() <= 4 && decimal_u64(path) is Some && hex.len()
        == 10 && all_hex_digits(hex) {
        Some(
            (
                id->0,
                GeoTagView {
                    time: time->0,
                    latitude: s.subrange(c2 + 1, c3),
                    longitude: s.subrange(c3 + 1, c4),
                    domain_num: digit_value(s[c4 + 1]) as u8,
                    url_num1: decimal_u64(path)->0 as u16,
                    url_num2: hex_value(hex) as u64,
                },
            ),
        )
    } else {
        None
    }
}

fn parse_signed_i32(v: &Vec<char>, lo: usize, hi: usize) -> (r: Option<i32>)
    requires
        lo <= hi <= v.len(),
    ensures
        r == signed_i32(v@.subrange(lo as int, hi as int)),
{
    let ghost s = v@.subrange(lo as int, hi as int);
    if lo < hi && v[lo] == '-' {
        assert(s.skip(1) =~= v@.subrange(lo + 1, hi as int));
        match parse_decimal(v, lo + 1, hi) {
            Some(m) => if m <= 0x8000_0000 {
                Some((0i64 - m as i64) as i32)
            } else {
                None
            },
            None => None,
        }
    } else {
        match parse_decimal(v, lo, hi) {
            Some(m) => if m <= 0x7fff_ffff {
                Some(m as i32)
            } else {
                None
            },
            None => None,
        }
    }
}

impl GeoTag {
    /// Reads a compact row back into its id and record.
    pub fn from_str_to_geotag(s: &str) -> (r: Option<(u64, GeoTag)>)
        ensures
            match r {
                None => row_parse(s@) is None,
                Some((id, g)) => row_parse(s@) == Some((id, g@)) && g@.wf(),
            },
    {
        let v = chars_of(s);
        let n = v.len();
        let c1 = find_char(&v, 0, ',');
        if c1 == n {
            return None;
        }
        let c2 = find_char(&v, c1 + 1, ',');
        if c2 == n {
            return None;
        }
        let c3 = find_char(&v, c2 + 1, ',');
        if c3 == n {
            return None;
        }
        let c4 = find_char(&v, c3 + 1, ',');
        if c4 == n {
            return None;
        }
        let c5 = find_char(&v, c4 + 1, ',');
        if c5 == n {
            return None;
        }
        let c6 = find_char(&v, c5 + 1, ',');
        if c6 == n || c2 + 1 >= c3 || c3 + 1 >= c4 || c5 != c4 + 2 || !is_digit_char(v[c4 + 1])
            || c6 < c5 + 2 || c6 - c5 > 5 || n - c6 != 11 {
            return None;
        }
        let id = match parse_decimal(&v, 0, c1) {
            None => return None,
            Some(x) => x,
        };
        let time = match parse_signed_i32(&v, c1 + 1, c2) {
            None => return None,
            Some(x) => x,
        };
        let path = match parse_decimal(&v, c5 + 1, c6) {
            None => return None,
            Some(x) => x,
        };
        let hex = match parse_hex10(&v, c6 + 1) {
            None => return None,
            Some(x) => x,
        };
        assert(v@.subrange(c6 + 1, n as int) =~= v@.subrange(c6 + 1, c6 + 11));
        proof {
            let ps = v@.subrange(c5 + 1, c6 as int);
            crate::text::lemma_decimal_bound(ps);
            crate::text::lemma_pow10_mono(ps.len(), 4);
            reveal_with_fuel(crate::text::pow10, 5);
            lemma_hex_value_bound(v@.subrange(c6 + 1, c6 + 11));
        }
        let d = v[c4 + 1];
        let g = GeoTag {
            time,
            latitude: string_of(&v, c2 + 1, c3),
            longitude: string_of(&v, c3 + 1, c4),
            domain_num: (d as u32 - '0' as u32) as u8,
            url_num1: path as u16,
            url_num2: hex,
        };
        Some((id, g))
    }
}

proof fn lemma_signed_decimal(t: i32)
    ensures
        signed_i32(signed_decimal_of(t as int)) == Some(t),
        signed_decimal_of(t as int).len() >= 1,
        forall|j: int|
            0 <= j < signed_decimal_of(t as int).len() ==> #[trigger] signed_decimal_of(
                t as int,
            )[j] != ',',
{
    let s = signed_decimal_of(t as int);
    if t < 0 {
        let d = decimal_of((-t) as nat);
        lemma_decimal_of((-t) as nat);
        assert(s.skip(1) =~= d);
        assert forall|j: int| 0 <= j < s.len() implies #[trigger] s[j] != ',' by {
            if j > 0 {
                assert(s[j] == d[j - 1]);
                assert(is_digit(d[j - 1]));
            }
        }
    } else {
        lemma_decimal_of(t as nat);
        assert(is_digit(s[0]));
        assert forall|j: int| 0 <= j < s.len() implies #[trigger] s[j] != ',' by {
            assert(is_digit(s[j]));
        }
    }
}

/// A compact row reads back as the id and the record it was written from,
/// when the coordinates are non-empty and hold no comma.
pub proof fn lemma_row_round_trip(id: u64, g: GeoTagView)
    requires
        g.wf(),
        g.latitude.len() > 0,
        g.longitude.len() > 0,
        !g.latitude.contains(','),
        !g.longitude.contains(','),
    ensures
        row_parse(row_of(id, g)) == Some((id, g)),
{
    let s = row_of(id, g);
    let d = decimal_of(id as nat);
    let t = signed_decimal_of(g.time as int);
    let m = decimal_of(g.domain_num as nat);
    let p = decimal_of(g.url_num1 as nat);
    let h = hex_of_width(g.url_num2 as nat, 10);
    lemma_decimal_of(id as nat);
    lemma_signed_decimal(g.time);
    lemma_decimal_of(g.domain_num as nat);
    lemma_decimal_of(g.url_num1 as nat);
    reveal_with_fuel(pow10, 5);
    lemma_decimal_of_len(g.url_num1 as nat, 4);
    lemma_hex_of_width(g.url_num2 as nat, 10);
    assert(m.len() == 1);
    let c1 = d.len() as int;
    let c2 = c1 + 1 + t.len();
    let c3 = c2 + 1 + g.latitude.len();
    let c4 = c3 + 1 + g.longitude.len();
    let c5 = c4 + 2;
    let c6 = c5 + 1 + p.len();
    assert(s.len() == c6 + 11);
    assert forall|j: int| 0 <= j < c1 implies s[j] != ',' by {
        assert(s[j] == d[j]);
        assert(is_digit(d[j]));
    }
    lemma_find_from_at(s, 0, c1, ',');
    assert forall|j: int| c1 + 1 <= j < c2 implies s[j] != ',' by {
        assert(s[j] == t[j - c1 - 1]);
    }
    lemma_find_from_at(s, c1 + 1, c2, ',');
    assert forall|j: int| c2 + 1 <= j < c3 implies s[j] != ',' by {
        assert(s[j] == g.latitude[j - c2 - 1]);
    }
    lemma_find_from_at(s, c2 + 1, c3, ',');
    assert forall|j: int| c3 + 1 <= j < c4 implies s[j] != ',' by {
        assert(s[j] == g.longitude[j - c3 - 1]);
    }
    lemma_find_from_at(s, c3 + 1, c4, ',');
    assert(s[c4 + 1] == m[0]);
    assert(is_digit(m[0]));
    lemma_find_from_at(s, c4 + 1, c5, ',');
    assert forall|j: int| c5 + 1 <= j < c6 implies s[j] != ',' by {
        assert(s[j] == p[j - c5 - 1]);
        assert(is_digit(p[j - c5 - 1]));
    }
    lemma_find_from_at(s, c5 + 1, c6, ',');
    assert(s.subrange(0, c1) =~= d);
    assert(s.subrange(c1 + 1, c2) =~= t);
    assert(s.subrange(c2 + 1, c3) =~= g.latitude);
    assert(s.subrange(c3 + 1, c4) =~= g.longitude);
    assert(s.subrange(c5 + 1, c6) =~= p);
    assert(s.subrange(c6 + 1, s.len() as int) =~= h);
    assert(m.drop_last() =~= Seq::<char>::empty());
    assert(crate::text::decimal_value(m.drop_last()) == 0);
    assert(digit_value(m[0]) == g.domain_num);
    reveal_with_fuel(pow16, 11);
}

/// A compact row has seven comma-separated fields, the last of them ten
/// lowercase hexadecimal digits whatever the suffix's magnitude, when the
/// coordinates hold no comma.
pub proof fn lemma_row_shape(id: u64, g: GeoTagView)
    requires
        g.wf(),
        !g.latitude.contains(','),
        !g.longitude.contains(','),
    ensures
        count_char(row_of(id, g), ',') == 6,
        row_of(id, g).len() >= 11,
        row_of(id, g).subrange(row_of(id, g).len() - 11, row_of(id, g).len() as int) == seq![',']
            + hex_of_width(g.url_num2 as nat, 10),
        all_hex_digits(hex_of_width(g.url_num2 as nat, 10)),
        hex_value(hex_of_width(g.url_num2 as nat, 10)) == g.url_num2,
{
    let c = seq![','];
    let d = decimal_of(id as nat);
    let t = signed_decimal_of(g.time as int);
    let m = decimal_of(g.domain_num as nat);
    let p = decimal_of(g.url_num1 as nat);
    let h = hex_of_width(g.url_num2 as nat, 10);
    lemma_decimal_of(id as nat);
    lemma_signed_decimal(g.time);
    lemma_decimal_of(g.domain_num as nat);
    lemma_decimal_of(g.url_num1 as nat);
    lemma_hex_of_width(g.url_num2 as nat, 10);
    assert forall|j: int| 0 <= j < d.len() implies d[j] != ',' by {
        assert(is_digit(d[j]));
    }
    assert forall|j: int| 0 <= j < m.len() implies m[j] != ',' by {
        assert(is_digit(m[j]));
    }
    assert forall|j: int| 0 <= j < p.len() implies p[j] != ',' by {
        assert(is_digit(p[j]));
    }
    assert forall|j: int| 0 <= j < h.len() implies h[j] != ',' by {
        assert(crate::text::is_hex_digit(h[j]));
    }
    assert forall|j: int| 0 <= j < g.latitude.len() implies g.latitude[j] != ',' by {}
    assert forall|j: int| 0 <= j < g.longitude.len() implies g.longitude[j] != ',' by {}
    lemma_count_absent(d, ',');
    lemma_count_absent(t, ',');
    lemma_count_absent(g.latitude, ',');
    lemma_count_absent(g.longitude, ',');
    lemma_count_absent(m, ',');
    lemma_count_absent(p, ',');
    lemma_count_absent(h, ',');
    assert(c.drop_last() =~= Seq::<char>::empty());
    assert(count_char(c.drop_last(), ',') == 0);
    assert(c.last() == ',');
    assert(count_char(c, ',') == 1);
    let s1 = d + c;
    lemma_count_add(d, c, ',');
    let s2 = s1 + t;
    lemma_count_add(s1, t, ',');
    let s3 = s2 + c;
    lemma_count_add(s2, c, ',');
    let s4 = s3 + g.latitude;
    lemma_count_add(s3, g.latitude, ',');
    let s5 = s4 + c;
    lemma_count_add(s4, c, ',');
    let s6 = s5 + g.longitude;
    lemma_count_add(s5, g.longitude, ',');
    let s7 = s6 + c;
    lemma_count_add(s6, c, ',');
    let s8 = s7 + m;
    lemma_count_add(s7, m, ',');
    let s9 = s8 + c;
    lemma_count_add(s8, c, ',');
    let s10 = s9 + p;
    lemma_count_add(s9, p, ',');
    let s11 = s10 + c;
    lemma_count_add(s10, c, ',');
    let s12 = s11 + h;
    lemma_count_add(s11, h, ',');
    assert(s12 == row_of(id, g));
    assert(s12.subrange(s12.len() - 11, s12.len() as int) =~= c + h);
}

} // verus!
