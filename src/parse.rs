//! The two line grammars of the source listings: tag lines and geotag lines.
use vstd::prelude::*;
use std::collections::HashSet;
use crate::geotag::{
    row_of, signed_decimal_of, GeoTag, GeoTagView, URL_COMMON, URL_PREFIX, URL_SUFFIX,
};
use crate::text::{
    all_digits, all_digits_in, all_hex_digits, chars_of, decimal_of, decimal_u64, decimal_value,
    digit_value, find_char, find_from, hex_value, is_digit, is_digit_char, lacks_char,
    lemma_decimal_bound, lemma_decimal_canonical, lemma_decimal_of, lemma_find_from,
    lemma_find_from_at, lemma_hex_canonical, lemma_hex_value_bound, lemma_pow10_mono,
    parse_decimal, parse_hex10, pow10, push_range, same_chars, string_of,
};
use crate::timestamp::{parse_utc_seconds, utc_seconds_of};

verus! {

/// Why a geotag line gave no record.
#[derive(Debug, Clone, Copy, PartialEq, Eq, Structural)]
pub enum GeoTagParseError {
    /// The photo is among those without a tag.
    NoTag(u64),
    /// The line does not have the geotag shape.
    NoMatch,
}

/// Whether `t` is wrapped in a pair of triple double quotes.
pub open spec fn is_triple_quoted(t: Seq<char>) -> bool {
    &&& t.len() >= 6
    &&& t.take(3) == seq!['"', '"', '"']
    &&& t.skip(t.len() - 3) == seq!['"', '"', '"']
}

/// The tag name that the remainder of a tag line stands for.
pub open spec fn tag_name_of(rest: Seq<char>) -> Seq<char> {
    if is_triple_quoted(rest) {
        rest.subrange(3, rest.len() - 3)
    } else {
        rest
    }
}

/// A tag line `<id>,<rest>`: the id is a decimal numeral before the first
/// comma, and the rest holds no line break. An empty name means the photo
/// has no tag.
pub open spec fn tag_line(s: Seq<char>) -> Option<(Seq<char>, u64)> {
    let k = find_from(s, 0, ',');
    let rest = s.skip(k + 1);
    if k < s.len() && decimal_u64(s.take(k)) is Some && !rest.contains('\n') {
        Some((tag_name_of(rest), decimal_u64(s.take(k))->0))
    } else {
        None
    }
}

/// The tag line written for a name and an id.
pub open spec fn tag_line_of(tag: Seq<char>, id: u64) -> Seq<char> {
    decimal_of(id as nat) + seq![','] + tag
}

/// Reads one tag line into its tag name and photo id. A line whose id is too
/// large for a `u64` reads as no tag line (`None`), like any other line
/// without the tag-line shape, so the run skips it and goes on instead of
/// stopping.
pub fn parse_string_to_tag_id(s: &str) -> (r: Option<(String, u64)>)
    ensures
        r is Some <==> tag_line(s@) is Some,
        r matches Some(p) ==> tag_line(s@) == Some((p.0@, p.1)),
{
    let v = chars_of(s);
    let k = find_char(&v, 0, ',');
    if k == v.len() {
        return None;
    }
    assert(v@.take(k as int) =~= v@.subrange(0, k as int));
    let id = match parse_decimal(&v, 0, k) {
        Some(id) => id,
        None => return None,
    };
    let ghost rest = v@.skip(k + 1);
    let nl = find_char(&v, k + 1, '\n');
    proof {
        lemma_find_from(v@, k + 1, '\n');
    }
    if nl < v.len() {
        assert(rest[nl - k - 1] == '\n');
        return None;
    }
    assert(!rest.contains('\n')) by {
        if rest.contains('\n') {
            let j = choose|j: int| 0 <= j < rest.len() && rest[j] == '\n';
            assert(v@[k + 1 + j] == '\n');
        }
    }
    let n = v.len();
    let name = if n - (k + 1) >= 6 && v[k + 1] == '"' && v[k + 2] == '"' && v[k + 3] == '"'
        && v[n - 3] == '"' && v[n - 2] == '"' && v[n - 1] == '"' {
        assert(rest.take(3) =~= seq!['"', '"', '"']);
        assert(rest.skip(rest.len() - 3) =~= seq!['"', '"', '"']);
        assert(rest.subrange(3, rest.len() - 3) =~= v@.subrange(k + 4, n - 3));
        string_of(&v, k + 4, n - 3)
    } else {
        assert(!is_triple_quoted(rest)) by {
            if is_triple_quoted(rest) {
                assert(rest.take(3)[0] == '"' && rest.take(3)[1] == '"' && rest.take(3)[2] == '"');
                let e = rest.skip(rest.len() - 3);
                assert(e[0] == '"' && e[1] == '"' && e[2] == '"');
            }
        }
        assert(rest =~= v@.subrange(k + 1, n as int));
        string_of(&v, k + 1, n)
    };
    Some((name, id))
}

/// A tag line written for a name and an id reads back as that same pair, as
/// long as the name holds no line break and is not wrapped in triple quotes.
/// An empty name comes back empty: the id lands among the untagged ones.
pub proof fn lemma_tag_line_round_trip(tag: Seq<char>, id: u64)
    requires
        !tag.contains('\n'),
        !is_triple_quoted(tag),
    ensures
        tag_line(tag_line_of(tag, id)) == Some((tag, id)),
{
    let d = decimal_of(id as nat);
    let s = tag_line_of(tag, id);
    lemma_decimal_of(id as nat);
    assert forall|j: int| 0 <= j < d.len() implies s[j] != ',' by {
        assert(s[j] == d[j]);
        assert(all_digits(d));
    }
    lemma_find_from_at(s, 0, d.len() as int, ',');
    assert(s.take(d.len() as int) =~= d);
    assert(s.skip(d.len() as int + 1) =~= tag);
}

/// The pieces of a geotag line `<id>,"<time>",<lat>,<lon>,<url>`, whose URL
/// is `URL_PREFIX <domain> URL_COMMON <path> / <id> _ <hex> URL_SUFFIX`.
pub struct GeoLineParts {
    pub id: Seq<char>,
    pub time: Seq<char>,
    pub latitude: Seq<char>,
    pub longitude: Seq<char>,
    pub domain: char,
    pub path: Seq<char>,
    pub hex: Seq<char>,
}

/// Text that stays inside one field of a line.
pub open spec fn field_text(t: Seq<char>) -> bool {
    !t.contains(',') && !t.contains('\n')
}

impl GeoLineParts {
    pub open spec fn valid(self) -> bool {
        &&& 8 <= self.id.len() <= 10
        &&& all_digits(self.id)
        &&& field_text(self.time)
        &&& self.latitude.len() > 0
        &&& field_text(self.latitude)
        &&& self.longitude.len() > 0
        &&& field_text(self.longitude)
        &&& is_digit(self.domain)
        &&& 1 <= self.path.len() <= 4
        &&& all_digits(self.path)
        &&& self.hex.len() == 10
        &&& all_hex_digits(self.hex)
    }

    pub open spec fn url(self) -> Seq<char> {
        URL_PREFIX@ + seq![self.domain] + URL_COMMON@ + self.path + seq!['/'] + self.id + seq!['_']
            + self.hex + URL_SUFFIX@
    }

    /// The line these pieces make.
    pub open spec fn line(self) -> Seq<char> {
        self.id + seq![','] + seq!['"'] + self.time + seq!['"'] + seq![','] + self.latitude + seq![
            ',',
        ] + self.longitude + seq![','] + self.url()
    }
}

/// The pieces of `s` between the given comma and slash positions.
pub open spec fn parts_at(s: Seq<char>, c1: int, c2: int, c3: int, c4: int, slash: int) -> GeoLineParts {
    GeoLineParts {
        id: s.subrange(0, c1),
        time: s.subrange(c1 + 2, c2 - 1),
        latitude: s.subrange(c2 + 1, c3),
        longitude: s.subrange(c3 + 1, c4),
        domain: s[c4 + 12],
        path: s.subrange(c4 + 32, slash),
        hex: s.subrange(slash + c1 + 2, slash + c1 + 12),
    }
}

/// The pieces of `s` found at its first four commas and the first slash
/// of the path, when `s` is long enough to hold them.
pub open spec fn split_geo_line(s: Seq<char>) -> Option<GeoLineParts> {
    let c1 = find_from(s, 0, ',');
    let c2 = find_from(s, c1 + 1, ',');
    let c3 = find_from(s, c2 + 1, ',');
    let c4 = find_from(s, c3 + 1, ',');
    let slash = find_from(s, c4 + 32, '/');
    if c4 < s.len() && c1 + 3 <= c2 && c4 + 32 <= s.len() && slash + c1 + 16 == s.len() {
        Some(parts_at(s, c1, c2, c3, c4, slash))
    } else {
        None
    }
}

/// The pieces that make the geotag line `s`, if any do.
pub open spec fn geo_line_parts(s: Seq<char>) -> Option<GeoLineParts> {
    if exists|p: GeoLineParts| p.valid() && p.line() == s {
        Some(choose|p: GeoLineParts| p.valid() && p.line() == s)
    } else {
        None
    }
}

/// A geotag line with its numbers read and its time still text.
pub struct GeotagFields {
    pub id: u64,
    pub time: String,
    pub latitude: String,
    pub longitude: String,
    pub domain_num: u8,
    pub url_num1: u16,
    pub url_num2: u64,
}

pub struct GeotagFieldsView {
    pub id: u64,
    pub time: Seq<char>,
    pub latitude: Seq<char>,
    pub longitude: Seq<char>,
    pub domain_num: u8,
    pub url_num1: u16,
    pub url_num2: u64,
}

impl View for GeotagFields {
    type V = GeotagFieldsView;

    open spec fn view(&self) -> GeotagFieldsView {
        GeotagFieldsView {
            id: self.id,
            time: self.time@,
            latitude: self.latitude@,
            longitude: self.longitude@,
            domain_num: self.domain_num,
            url_num1: self.url_num1,
            url_num2: self.url_num2,
        }
    }
}

pub open spec fn fields_of(p: GeoLineParts) -> GeotagFieldsView {
    GeotagFieldsView {
        id: decimal_value(p.id) as u64,
        time: p.time,
        latitude: p.latitude,
        longitude: p.longitude,
        domain_num: digit_value(p.domain) as u8,
        url_num1: decimal_value(p.path) as u16,
        url_num2: hex_value(p.hex) as u64,
    }
}

/// The fields of a geotag line whose id is not excluded.
pub open spec fn geo_line_fields(s: Seq<char>, excluded: Set<u64>) -> Result<
    GeotagFieldsView,
    GeoTagParseError,
> {
    match geo_line_parts(s) {
        None => Err(GeoTagParseError::NoMatch),
        Some(p) => {
            let f = fields_of(p);
            if excluded.contains(f.id) {
                Err(GeoTagParseError::NoTag(f.id))
            } else {
                Ok(f)
            }
        },
    }
}

/// The record of fields whose time text read as `seconds`: the seconds cut
/// to 32 bits, or no match when the time did not read.
pub open spec fn record_of(f: GeotagFieldsView, seconds: Option<i64>) -> Result<
    (u64, GeoTagView),
    GeoTagParseError,
> {
    match seconds {
        None => Err(GeoTagParseError::NoMatch),
        Some(t) => Ok(
            (
                f.id,
                GeoTagView {
                    time: t as i32,
                    latitude: f.latitude,
                    longitude: f.longitude,
                    domain_num: f.domain_num,
                    url_num1: f.url_num1,
                    url_num2: f.url_num2,
                },
            ),
        ),
    }
}

/// What a geotag line reads as, leaving out the excluded ids.
pub open spec fn geo_line(s: Seq<char>, excluded: Set<u64>) -> Result<
    (u64, GeoTagView),
    GeoTagParseError,
> {
    match geo_line_fields(s, excluded) {
        Err(e) => Err(e),
        Ok(f) => record_of(f, utc_seconds_of(f.time)),
    }
}

/// The commas and the slash of a line made of valid pieces stand where the
/// pieces put them.
pub proof fn lemma_split_line(p: GeoLineParts)
    requires
        p.valid(),
    ensures
        split_geo_line(p.line()) == Some(p),
{
    reveal_strlit("http://farm");
    reveal_strlit(".static.flickr.com/");
    reveal_strlit(".jpg");
    let s = p.line();
    let a = p.id.len() as int;
    let c2 = a + p.time.len() + 3;
    let c3 = c2 + 1 + p.latitude.len();
    let c4 = c3 + 1 + p.longitude.len();
    let u = c4 + 1;
    let slash = u + 31 + p.path.len();
    assert(URL_PREFIX@.len() == 11);
    assert(URL_COMMON@.len() == 19);
    assert(URL_SUFFIX@.len() == 4);
    assert(s.len() == slash + a + 16);
    assert forall|j: int| 0 <= j < a implies s[j] != ',' by {
        assert(s[j] == p.id[j]);
        assert(is_digit(p.id[j]));
    }
    assert(s[a] == ',');
    lemma_find_from_at(s, 0, a, ',');
    assert forall|j: int| a + 1 <= j < c2 implies s[j] != ',' by {
        if a + 2 <= j < c2 - 1 {
            assert(s[j] == p.time[j - a - 2]);
        }
    }
    lemma_find_from_at(s, a + 1, c2, ',');
    assert forall|j: int| c2 + 1 <= j < c3 implies s[j] != ',' by {
        assert(s[j] == p.latitude[j - c2 - 1]);
    }
    lemma_find_from_at(s, c2 + 1, c3, ',');
    assert forall|j: int| c3 + 1 <= j < c4 implies s[j] != ',' by {
        assert(s[j] == p.longitude[j - c3 - 1]);
    }
    lemma_find_from_at(s, c3 + 1, c4, ',');
    assert(s.skip(u) =~= p.url());
    assert forall|j: int| u + 31 <= j < slash implies s[j] != '/' by {
        assert(s[j] == p.url()[j - u]);
        assert(p.url()[j - u] == p.path[j - u - 31]);
        assert(is_digit(p.path[j - u - 31]));
    }
    assert(s[slash] == p.url()[slash - u]);
    lemma_find_from_at(s, u + 31, slash, '/');
    assert(s.subrange(0, a) =~= p.id);
    assert(s.subrange(a + 2, c2 - 1) =~= p.time);
    assert(s.subrange(c2 + 1, c3) =~= p.latitude);
    assert(s.subrange(c3 + 1, c4) =~= p.longitude);
    assert(s[u + 11] == p.url()[11]);
    assert(s.subrange(u + 31, slash) =~= p.path);
    assert(s.subrange(slash + a + 2, slash + a + 12) =~= p.hex);
}

/// The pieces that make a geotag line are the ones found at its commas.
pub proof fn lemma_parts_unique(p: GeoLineParts, s: Seq<char>)
    requires
        p.valid(),
        p.line() == s,
    ensures
        geo_line_parts(s) == Some(p),
        split_geo_line(s) == Some(p),
{
    lemma_split_line(p);
    let q = choose|q: GeoLineParts| q.valid() && q.line() == s;
    lemma_split_line(q);
}

fn push_chars(out: &mut Vec<char>, w: &Vec<char>)
    ensures
        final(out)@ == old(out)@ + w@,
{
    push_range(out, w, 0, w.len());
    assert(w@.subrange(0, w.len() as int) =~= w@);
}

/// A line whose pieces, found at its commas, are not valid or do not make
/// it, is made of no valid pieces.
pub proof fn lemma_no_parts(s: Seq<char>)
    requires
        split_geo_line(s) matches Some(c) ==> !(c.valid() && c.line() == s),
    ensures
        geo_line_parts(s) is None,
{
    if exists|p: GeoLineParts| p.valid() && p.line() == s {
        let p = choose|p: GeoLineParts| p.valid() && p.line() == s;
        lemma_parts_unique(p, s);
    }
}

proof fn lemma_valid_parts_numbers(c: GeoLineParts, s: Seq<char>)
    requires
        c.valid(),
        c.line() == s,
    ensures
        geo_line_parts(s) == Some(c),
        decimal_u64(c.id) == Some(decimal_value(c.id) as u64),
        decimal_u64(c.path) == Some(decimal_value(c.path) as u64),
        decimal_value(c.path) <= 9999,
{
    lemma_parts_unique(c, s);
    lemma_decimal_bound(c.id);
    lemma_pow10_mono(c.id.len(), 10);
    lemma_decimal_bound(c.path);
    lemma_pow10_mono(c.path.len(), 4);
    reveal_with_fuel(pow10, 11);
}

/// Finds the four commas and the path's slash of a geotag line.
fn locate_geo_line(v: &Vec<char>) -> (r: Option<(usize, usize, usize, usize, usize)>)
    ensures
        r is None ==> split_geo_line(v@) is None,
        r matches Some((c1, c2, c3, c4, slash)) ==> {
            &&& c1 + 3 <= c2 < c3 < c4
            &&& c4 + 32 <= slash
            &&& slash + c1 + 16 == v.len()
            &&& split_geo_line(v@) == Some(
                parts_at(v@, c1 as int, c2 as int, c3 as int, c4 as int, slash as int),
            )
        },
{
    let n = v.len();
    let c1 = find_char(v, 0, ',');
    if c1 == n {
        return None;
    }
    let c2 = find_char(v, c1 + 1, ',');
    if c2 == n {
        return None;
    }
    let c3 = find_char(v, c2 + 1, ',');
    if c3 == n {
        return None;
    }
    let c4 = find_char(v, c3 + 1, ',');
    if c4 == n || c2 < c1 + 3 || n - c4 < 32 {
        return None;
    }
    let slash = find_char(v, c4 + 32, '/');
    if n < 16 || n - 16 < c1 || slash != n - 16 - c1 {
        return None;
    }
    Some((c1, c2, c3, c4, slash))
}

/// Whether the pieces at the given positions are those of a geotag line.
fn parts_valid_at(v: &Vec<char>, c1: usize, c2: usize, c3: usize, c4: usize, slash: usize) -> (r:
    bool)
    requires
        c1 + 3 <= c2 < c3 < c4,
        c4 + 32 <= slash,
        slash + c1 + 16 == v.len(),
    ensures
        r == parts_at(v@, c1 as int, c2 as int, c3 as int, c4 as int, slash as int).valid(),
{
    let h = slash + c1 + 2;
    let hex = parse_hex10(&v, h);
    8 <= c1 && c1 <= 10 && all_digits_in(&v, 0, c1) && lacks_char(&v, c1 + 2, c2 - 1, ',')
        && lacks_char(&v, c1 + 2, c2 - 1, '\n') && c2 + 1 < c3 && lacks_char(&v, c2 + 1, c3, ',')
        && lacks_char(&v, c2 + 1, c3, '\n') && c3 + 1 < c4 && lacks_char(&v, c3 + 1, c4, ',')
        && lacks_char(&v, c3 + 1, c4, '\n') && is_digit_char(v[c4 + 12]) && c4 + 33 <= slash
        && slash <= c4 + 36 && all_digits_in(&v, c4 + 32, slash) && hex.is_some()
}

/// The line that the pieces at the given positions make.
#[verifier::rlimit(40)]
fn compose_at(v: &Vec<char>, c1: usize, c2: usize, c3: usize, c4: usize, slash: usize) -> (r: Vec<
    char,
>)
    requires
        c1 + 3 <= c2 < c3 < c4,
        c4 + 32 <= slash,
        slash + c1 + 16 == v.len(),
    ensures
        r@ == parts_at(v@, c1 as int, c2 as int, c3 as int, c4 as int, slash as int).line(),
{
    let h = slash + c1 + 2;
    let prefix = chars_of(URL_PREFIX);
    let common = chars_of(URL_COMMON);
    let suffix = chars_of(URL_SUFFIX);
    let mut line: Vec<char> = Vec::new();
    push_range(&mut line, &v, 0, c1);
    line.push(',');
    line.push('"');
    push_range(&mut line, &v, c1 + 2, c2 - 1);
    line.push('"');
    line.push(',');
    push_range(&mut line, &v, c2 + 1, c3);
    line.push(',');
    push_range(&mut line, &v, c3 + 1, c4);
    line.push(',');
    push_chars(&mut line, &prefix);
    line.push(v[c4 + 12]);
    push_chars(&mut line, &common);
    push_range(&mut line, &v, c4 + 32, slash);
    line.push('/');
    push_range(&mut line, &v, 0, c1);
    line.push('_');
    push_range(&mut line, &v, h, h + 10);
    push_chars(&mut line, &suffix);
    assert(line@ =~= parts_at(v@, c1 as int, c2 as int, c3 as int, c4 as int, slash as int).line());
    line
}

/// Reads a geotag line into its fields, its time still text, unless the
/// line lacks the geotag shape or its id is in `no_tags`.
#[verifier::rlimit(40)]
pub fn split_geotag_line(s: &str, no_tags: &HashSet<u64>) -> (r: Result<
    GeotagFields,
    GeoTagParseError,
>)
    ensures
        match r {
            Ok(f) => geo_line_fields(s@, no_tags@) == Ok::<GeotagFieldsView, GeoTagParseError>(f@),
            Err(e) => geo_line_fields(s@, no_tags@) == Err::<GeotagFieldsView, GeoTagParseError>(e),
        },
{
    let v = chars_of(s);
    let (c1, c2, c3, c4, slash) = match locate_geo_line(&v) {
        Some(t) => t,
        None => {
            proof {
                lemma_no_parts(v@);
            }
            return Err(GeoTagParseError::NoMatch);
        },
    };
    let ghost cand = parts_at(v@, c1 as int, c2 as int, c3 as int, c4 as int, slash as int);
    if !parts_valid_at(&v, c1, c2, c3, c4, slash) {
        proof {
            lemma_no_parts(v@);
        }
        return Err(GeoTagParseError::NoMatch);
    }
    let line = compose_at(&v, c1, c2, c3, c4, slash);
    if !same_chars(&line, &v) {
        proof {
            lemma_no_parts(v@);
        }
        return Err(GeoTagParseError::NoMatch);
    }
    proof {
        lemma_valid_parts_numbers(cand, v@);
    }
    assert(v@.subrange(0, c1 as int).take(c1 as int) =~= v@.subrange(0, c1 as int));
    let id = match parse_decimal(&v, 0, c1) {
        Some(id) => id,
        None => {
            return Err(GeoTagParseError::NoMatch);
        },
    };
    let path = match parse_decimal(&v, c4 + 32, slash) {
        Some(x) => x,
        None => {
            return Err(GeoTagParseError::NoMatch);
        },
    };
    let hex = match parse_hex10(&v, slash + c1 + 2) {
        Some(x) => x,
        None => {
            return Err(GeoTagParseError::NoMatch);
        },
    };
    if no_tags.contains(&id) {
        return Err(GeoTagParseError::NoTag(id));
    }
    let d = v[c4 + 12];
    let domain_num = (d as u32 - '0' as u32) as u8;
    Ok(
        GeotagFields {
            id,
            time: string_of(&v, c1 + 2, c2 - 1),
            latitude: string_of(&v, c2 + 1, c3),
            longitude: string_of(&v, c3 + 1, c4),
            domain_num,
            url_num1: path as u16,
            url_num2: hex,
        },
    )
}

pub open spec fn record_view(r: Result<(u64, GeoTag), GeoTagParseError>) -> Result<
    (u64, GeoTagView),
    GeoTagParseError,
> {
    match r {
        Ok((id, g)) => Ok((id, g@)),
        Err(e) => Err(e),
    }
}

impl GeoTagParseError {
    /// A sentence that says why the line gave no record.
    pub fn message(&self) -> (r: String)
        ensures
            r@ == match self {
                GeoTagParseError::NoTag(i) => decimal_of(*i as nat) + " is in NO_TAGS"@,
                GeoTagParseError::NoMatch => "the line didn't match the regex"@,
            },
    {
        match self {
            GeoTagParseError::NoTag(i) => {
                let mut out = String::new();
                crate::text::push_decimal(&mut out, *i);
                let tail = String::from_str(" is in NO_TAGS");
                crate::text::push_str(&mut out, &tail);
                out
            },
            GeoTagParseError::NoMatch => String::from_str("the line didn't match the regex"),
        }
    }
}

impl GeotagFields {
    /// The record of these fields, given what their time text read as.
    pub fn into_geotag(self, seconds: Option<i64>) -> (r: Result<(u64, GeoTag), GeoTagParseError>)
        ensures
            record_view(r) == record_of(self@, seconds),
    {
        match seconds {
            None => Err(GeoTagParseError::NoMatch),
            Some(t) => {
                let time = t as i32;
                Ok(
                    (
                        self.id,
                        GeoTag {
                            time,
                            latitude: self.latitude,
                            longitude: self.longitude,
                            domain_num: self.domain_num,
                            url_num1: self.url_num1,
                            url_num2: self.url_num2,
                        },
                    ),
                )
            },
        }
    }
}

/// Every record that a geotag line reads as is well formed.
pub proof fn lemma_geo_line_wf(s: Seq<char>, excluded: Set<u64>)
    ensures
        geo_line(s, excluded) matches Ok((_, g)) ==> g.wf(),
{
    if let Some(p) = geo_line_parts(s) {
        assert(p.valid() && p.line() == s);
        lemma_valid_parts_numbers(p, s);
        lemma_hex_value_bound(p.hex);
        reveal_with_fuel(crate::text::pow16, 11);
        assert(is_digit(p.domain));
    }
}

/// Reads one geotag line into its id and record. A line without the geotag
/// shape gives `NoMatch`, and so does a line whose fields have the shape but
/// do not convert (a time that is no calendar time): such a line is skipped
/// like any other that does not match, and the run goes on. The id inside
/// the URL must be the line's leading id: a URL that names another id gives
/// `NoMatch` too. A line whose id is in `no_tags` gives `NoTag`, before any
/// other field is read.
pub fn parse_string_to_id_geotag(s: &str, no_tags: &HashSet<u64>) -> (r: Result<
    (u64, GeoTag),
    GeoTagParseError,
>)
    ensures
        record_view(r) == geo_line(s@, no_tags@),
        r matches Ok((_, g)) ==> g@.wf(),
{
    proof {
        if let Ok((_, g)) = geo_line(s@, no_tags@) {
            lemma_geo_line_wf(s@, no_tags@);
        }
    }
    match split_geotag_line(s, no_tags) {
        Err(e) => Err(e),
        Ok(f) => {
            let seconds = parse_utc_seconds(f.time.as_str());
            f.into_geotag(seconds)
        },
    }
}

/// A geotag line of the right shape, whose id is not excluded, reads into a
/// record exactly when its time reads. The compact row of that record then
/// repeats the line's domain digit, path segment and hexadecimal suffix as
/// they were written (the suffix always as ten lowercase hexadecimal
/// digits), when the path segment has no leading zero.
pub proof fn lemma_geotag_round_trip(p: GeoLineParts, excluded: Set<u64>)
    requires
        p.valid(),
        p.path.len() == 1 || p.path[0] != '0',
    ensures
        geo_line(p.line(), excluded) is Ok <==> (!excluded.contains(decimal_value(p.id) as u64)
            && utc_seconds_of(p.time) is Some),
        geo_line(p.line(), excluded) matches Ok((id, g)) ==> {
            &&& id as nat == decimal_value(p.id)
            &&& g.wf()
            &&& row_of(id, g) == decimal_of(id as nat) + seq![','] + signed_decimal_of(
                g.time as int,
            ) + seq![','] + p.latitude + seq![','] + p.longitude + seq![','] + seq![p.domain]
                + seq![','] + p.path + seq![','] + p.hex
        },
{
    lemma_valid_parts_numbers(p, p.line());
    lemma_decimal_canonical(p.path);
    lemma_decimal_canonical(seq![p.domain]);
    assert(all_digits(seq![p.domain]));
    assert(seq![p.domain].drop_last() =~= Seq::<char>::empty());
    assert(decimal_value(Seq::<char>::empty()) == 0);
    lemma_hex_canonical(p.hex);
    lemma_hex_value_bound(p.hex);
    reveal_with_fuel(crate::text::pow16, 11);
    let d = digit_value(p.domain);
    assert(decimal_value(seq![p.domain]) == d);
    assert(d <= 9);
    if let Ok((id, g)) = geo_line(p.line(), excluded) {
        assert(g.domain_num as nat == d);
        assert(g.url_num1 as nat == decimal_value(p.path));
        assert(g.url_num2 as nat == hex_value(p.hex));
        assert(decimal_of(g.domain_num as nat) == seq![p.domain]);
        assert(row_of(id, g) =~= decimal_of(id as nat) + seq![','] + signed_decimal_of(
            g.time as int,
        ) + seq![','] + p.latitude + seq![','] + p.longitude + seq![','] + seq![p.domain]
            + seq![','] + p.path + seq![','] + p.hex);
    }
}

} // verus!
