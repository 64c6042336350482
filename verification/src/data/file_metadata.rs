use vstd::prelude::*;
use chrono::TimeZone;
use crate::data::data_entry::{device_text, DeviceId, DeviceIdView};
use crate::text::{
    join, all_digits, contains_text, lemma_occurs_found, digits_value, is_digit, decimal, decimal_chars, find_from, lemma_decimal_digits, lemma_find_from_first,
    lemma_find_from_of_first, lemma_find_from_prefix, lemma_parse_decimal, lemma_trim_unchanged,
    occurs_at, push_str, chars_of, is_whitespace, lines, parse_i32, parse_i32_chars, parse_u32, split_char, split_chars, is_whitespace_char, parse_u16, parse_u64, parse_unsigned, split_once,
    split_once_chars, string_from, trim, trim_chars,
};

verus! {

/// What `filenamify::filenamify` makes of a text: a valid file name.
pub uninterp spec fn filenamified(s: Seq<char>) -> Seq<char>;

/// A character that may not stand in a file name: `<>:"/\|?*` and the control characters.
pub open spec fn reserved_in_file_names(c: char) -> bool {
    ||| c == '<' || c == '>' || c == ':' || c == '"' || c == '/' || c == '\\' || c == '|' || c == '?' || c == '*'
    ||| (c as int) <= 0x1f
    ||| 0x7f <= (c as int) <= 0x9f
}

/// `filenamify::filenamify`: replaces runs of reserved characters and leading or trailing
/// periods by `_`, and appends `_` to reserved Windows device names (`con`, `prn`, `aux`,
/// `nul`, `com` or `lpt` and a digit). The contract names the result ([`filenamified`]),
/// states that it holds no reserved character, and that a text with no reserved character, no
/// period at either end and a length other than 3 or 4 (so no device name) is left as it is;
/// the rest of the replacement is not stated.
#[verifier::external_body]
pub(crate) fn filenamify(s: &str) -> (r: String)
    ensures
        r@ == filenamified(s@),
        forall|i: int| 0 <= i < r@.len() ==> !reserved_in_file_names(#[trigger] r@[i]),
        (forall|i: int| 0 <= i < s@.len() ==> !reserved_in_file_names(#[trigger] s@[i])) && (s@.len() > 0
            ==> s@[0] != '.' && s@.last() != '.') && s@.len() != 3 && s@.len() != 4 ==> r@ == s@,
{
    filenamify::filenamify(s)
}

/// The creation time written into a file name of the form `...TIMESTAMP<ms>-...`.
pub open spec fn spec_creation_time_from_stem(stem: Seq<char>) -> Option<u64> {
    match split_once(stem, "TIMESTAMP"@) {
        Some((_, rest)) => match split_once(rest, "-"@) {
            Some((ts, _)) => match parse_unsigned(ts, u64::MAX as int) {
                Some(ms) => Some(ms as u64),
                None => None,
            },
            None => None,
        },
        None => None,
    }
}

/// Reads the creation time that sorting wrote into a file name
/// (see [`spec_creation_time_from_stem`]).
pub fn creation_time_from_stem(stem: &str) -> (r: Option<u64>)
    ensures
        r == spec_creation_time_from_stem(stem@),
{
    let s = chars_of(stem);
    let marker = chars_of("TIMESTAMP");
    let dash = chars_of("-");
    match split_once_chars(s.as_slice(), marker.as_slice()) {
        Some((_, rest)) => match split_once_chars(rest.as_slice(), dash.as_slice()) {
            Some((ts, _)) => parse_u64(ts.as_slice()),
            None => None,
        },
        None => None,
    }
}

/// The device written into a file name of the form `...DEVICE_ID<id>TIMESTAMP...`: a client
/// id when the (trimmed) id is a `u16`, a camera name otherwise.
pub open spec fn spec_device_id_from_stem(stem: Seq<char>) -> Option<DeviceIdView> {
    match split_once(stem, "DEVICE_ID"@) {
        Some((_, rest)) => match split_once(rest, "TIMESTAMP"@) {
            Some((id, _)) => match parse_unsigned(trim(id), u16::MAX as int) {
                Some(n) => Some(DeviceIdView::ClientId(n as u16)),
                None => Some(DeviceIdView::CameraId(trim(id))),
            },
            None => None,
        },
        None => None,
    }
}

/// Reads the device that sorting wrote into a file name (see [`spec_device_id_from_stem`]).
pub fn device_id_from_stem(stem: &str) -> (r: Option<DeviceId>)
    ensures
        match spec_device_id_from_stem(stem@) {
            Some(d) => r matches Some(x) && x@ == d,
            None => r is None,
        },
{
    let s = chars_of(stem);
    let marker = chars_of("DEVICE_ID");
    let ts = chars_of("TIMESTAMP");
    match split_once_chars(s.as_slice(), marker.as_slice()) {
        Some((_, rest)) => match split_once_chars(rest.as_slice(), ts.as_slice()) {
            Some((id, _)) => {
                let t = trim_chars(id.as_slice());
                match parse_u16(t.as_slice()) {
                    Some(n) => Some(DeviceId::ClientId(n)),
                    None => Some(DeviceId::CameraId(string_from(t.as_slice()))),
                }
            },
            None => None,
        },
        None => None,
    }
}

/// The stem a processed file gets in the unsorted folder:
/// `DEVICE_ID<device>TIMESTAMP<creation ms>-<original stem>`.
pub open spec fn spec_unsorted_stem(id: DeviceIdView, ms: u64, stem: Seq<char>) -> Seq<char> {
    "DEVICE_ID"@ + device_text(id) + "TIMESTAMP"@ + decimal(ms as nat) + "-"@ + stem
}

/// The name a processed file gets in the unsorted folder: its new stem, `.`, its extension.
pub open spec fn spec_unsorted_file_name(id: DeviceIdView, ms: u64, stem: Seq<char>, ext: Seq<char>) -> Seq<char> {
    spec_unsorted_stem(id, ms, stem) + "."@ + ext
}

/// The name a processed file gets in the unsorted folder (see [`spec_unsorted_file_name`]).
pub fn unsorted_file_name(camera_id: &DeviceId, creation_time: u64, stem: &str, ext: &str) -> (r: String)
    ensures
        r@ == spec_unsorted_file_name(camera_id@, creation_time, stem@, ext@),
{
    let mut v: Vec<char> = Vec::new();
    push_str(&mut v, "DEVICE_ID");
    let d = camera_id.to_string();
    push_str(&mut v, d.as_str());
    push_str(&mut v, "TIMESTAMP");
    let mut t = decimal_chars(creation_time);
    v.append(&mut t);
    push_str(&mut v, "-");
    push_str(&mut v, stem);
    push_str(&mut v, ".");
    push_str(&mut v, ext);
    string_from(v.as_slice())
}

/// The marker `TIMESTAMP` first occurs in `<device>TIMESTAMP` right after the device text, so
/// that the device text can be told apart from the marker.
pub open spec fn marker_after(device: Seq<char>) -> bool {
    find_from(device + "TIMESTAMP"@, "TIMESTAMP"@, 0) == Some(device.len() as int)
}

/// The device text can be told apart from the marker exactly when it does not hold `TIMESTAMP`:
/// no proper prefix of `TIMESTAMP` is also a suffix of it, so no occurrence can straddle the
/// end of the device text.
pub proof fn lemma_marker_after_iff(device: Seq<char>)
    ensures
        marker_after(device) <==> !contains_text(device, "TIMESTAMP"@),
{
    reveal_strlit("TIMESTAMP");
    let t = "TIMESTAMP"@;
    let x = device + t;
    let n = device.len() as int;
    assert(x.subrange(n, n + 9) =~= t);
    if contains_text(device, t) {
        let j = find_from(device, t, 0)->0;
        lemma_find_from_first(device, t, 0, j);
        assert(x.subrange(j, j + 9) =~= device.subrange(j, j + 9));
        assert(occurs_at(x, t, j));
        if marker_after(device) {
            lemma_find_from_first(x, t, 0, n);
        }
    } else {
        assert forall|j: int| 0 <= j < n implies !occurs_at(x, t, j) by {
            if occurs_at(x, t, j) {
                if j + 9 <= n {
                    assert(x.subrange(j, j + 9) =~= device.subrange(j, j + 9));
                    assert(occurs_at(device, t, j));
                    lemma_occurs_found(device, t, 0, j);
                } else {
                    let k = n - j;
                    assert(x.subrange(j, j + 9)[k] == x[n]);
                    assert(x.subrange(j, j + 9)[k + 1] == x[n + 1]);
                    assert(t[k] == t[0] && t[k + 1] == t[1]);
                }
            }
        }
        lemma_find_from_of_first(x, t, 0, n);
    }
}

/// Every client id can be told apart from the marker.
pub(crate) proof fn lemma_client_marker_after(n: u16)
    ensures
        marker_after(decimal(n as nat)),
{
    reveal_strlit("TIMESTAMP");
    let d = decimal(n as nat);
    lemma_decimal_digits(n as nat);
    let x = d + "TIMESTAMP"@;
    assert(x.subrange(d.len() as int, d.len() as int + 9) =~= "TIMESTAMP"@);
    assert forall|j: int| 0 <= j < d.len() implies !occurs_at(x, "TIMESTAMP"@, j) by {
        assert(x[j] == d[j]);
        if occurs_at(x, "TIMESTAMP"@, j) {
            assert(x.subrange(j, j + 9)[0] == x[j]);
        }
    }
    lemma_find_from_of_first(x, "TIMESTAMP"@, 0, d.len() as int);
}

/// The first `TIMESTAMP` in a processed file's stem is the marker after the device text.
pub proof fn lemma_marker_position(id: DeviceIdView, ms: u64, stem: Seq<char>)
    requires
        marker_after(device_text(id)),
    ensures
        find_from(spec_unsorted_stem(id, ms, stem), "TIMESTAMP"@, 0) == Some(9 + device_text(id).len() as int),
{
    reveal_strlit("TIMESTAMP");
    reveal_strlit("DEVICE_ID");
    let d = device_text(id);
    let s = spec_unsorted_stem(id, ms, stem);
    let dt = d + "TIMESTAMP"@;
    let k = 9 + d.len() as int;
    lemma_find_from_first(dt, "TIMESTAMP"@, 0, d.len() as int);
    assert(s.subrange(9, 9 + dt.len() as int) =~= dt);
    assert(s.subrange(k, k + 9) =~= "TIMESTAMP"@);
    assert forall|j: int| 0 <= j < k implies !occurs_at(s, "TIMESTAMP"@, j) by {
        if occurs_at(s, "TIMESTAMP"@, j) {
            if j < 9 {
                assert(s[j] == "DEVICE_ID"@[j]);
                assert(s.subrange(j, j + 9)[0] == s[j]);
            } else {
                assert(s.subrange(j, j + 9) =~= dt.subrange(j - 9, j));
                assert(occurs_at(dt, "TIMESTAMP"@, j - 9));
            }
        }
    }
    lemma_find_from_of_first(s, "TIMESTAMP"@, 0, k);
}

/// Reading the creation time back from a processed file's stem gives the time written into
/// it: always for a client, and for a camera whose name does not hold `TIMESTAMP`.
pub proof fn law_creation_time_round_trip(id: DeviceIdView, ms: u64, stem: Seq<char>)
    requires
        id matches DeviceIdView::CameraId(c) ==> !contains_text(c, "TIMESTAMP"@),
    ensures
        spec_creation_time_from_stem(spec_unsorted_stem(id, ms, stem)) == Some(ms),
{
    match id {
        DeviceIdView::ClientId(n) => lemma_client_marker_after(n),
        DeviceIdView::CameraId(c) => lemma_marker_after_iff(c),
    }
    reveal_strlit("TIMESTAMP");
    reveal_strlit("DEVICE_ID");
    reveal_strlit("-");
    let d = device_text(id);
    let s = spec_unsorted_stem(id, ms, stem);
    let m = decimal(ms as nat);
    lemma_marker_position(id, ms, stem);
    let rest = s.skip(18 + d.len() as int);
    assert(rest =~= m + "-"@ + stem);
    lemma_decimal_digits(ms as nat);
    assert(rest.subrange(m.len() as int, m.len() as int + 1) =~= "-"@);
    assert forall|j: int| 0 <= j < m.len() implies !occurs_at(rest, "-"@, j) by {
        assert(rest[j] == m[j]);
        if occurs_at(rest, "-"@, j) {
            assert(rest.subrange(j, j + 1)[0] == rest[j]);
        }
    }
    lemma_find_from_of_first(rest, "-"@, 0, m.len() as int);
    assert(rest.take(m.len() as int) =~= m);
    lemma_parse_decimal(ms as nat, u64::MAX as int);
}

/// Reading the device back from a processed file's stem gives the device written into it:
/// always for a client; for a camera whose name does not hold `TIMESTAMP`, has no whitespace
/// at either end and does not read as a client id.
pub proof fn law_device_id_round_trip(id: DeviceIdView, ms: u64, stem: Seq<char>)
    requires
        id matches DeviceIdView::CameraId(c) ==> !contains_text(c, "TIMESTAMP"@) && trim(c) == c
            && parse_unsigned(c, u16::MAX as int) is None,
    ensures
        spec_device_id_from_stem(spec_unsorted_stem(id, ms, stem)) == Some(id),
{
    match id {
        DeviceIdView::ClientId(n) => lemma_client_marker_after(n),
        DeviceIdView::CameraId(c) => lemma_marker_after_iff(c),
    }
    reveal_strlit("TIMESTAMP");
    reveal_strlit("DEVICE_ID");
    let d = device_text(id);
    let s = spec_unsorted_stem(id, ms, stem);
    assert(s.subrange(0, 9) =~= "DEVICE_ID"@);
    lemma_find_from_of_first(s, "DEVICE_ID"@, 0, 0);
    let rest = s.skip(9);
    let tail = decimal(ms as nat) + "-"@ + stem;
    assert(rest =~= (d + "TIMESTAMP"@) + tail);
    lemma_find_from_prefix(d + "TIMESTAMP"@, tail, "TIMESTAMP"@, d.len() as int);
    assert(rest.take(d.len() as int) =~= d);
    match id {
        DeviceIdView::ClientId(n) => {
            lemma_decimal_digits(n as nat);
            lemma_trim_unchanged(d);
            lemma_parse_decimal(n as nat, u16::MAX as int);
        },
        DeviceIdView::CameraId(c) => {},
    }
}

/// `str::split_whitespace`: the maximal runs of non-whitespace characters.
pub open spec fn words(s: Seq<char>) -> Seq<Seq<char>>
    decreases s.len(),
{
    if s.len() == 0 {
        seq![]
    } else {
        let prev = words(s.drop_last());
        if is_whitespace(s.last()) {
            prev
        } else if s.len() >= 2 && !is_whitespace(s[s.len() - 2]) {
            prev.update(prev.len() - 1, prev.last().push(s.last()))
        } else {
            prev.push(seq![s.last()])
        }
    }
}


pub proof fn lemma_words_nonempty(s: Seq<char>)
    ensures
        s.len() >= 1 && !is_whitespace(s.last()) ==> words(s).len() >= 1,
        forall|i: int| 0 <= i < words(s).len() ==> #[trigger] words(s)[i].len() >= 1,
    decreases s.len(),
{
    if s.len() > 0 {
        lemma_words_nonempty(s.drop_last());
    }
}

/// Joins pieces with a separator (see [`join`]).
fn join_chars(pieces: &Vec<Vec<char>>, sep: &[char]) -> (r: Vec<char>)
    ensures
        r@ == join(pieces@.map_values(|p: Vec<char>| p@), sep@),
{
    let ghost ps = pieces@.map_values(|p: Vec<char>| p@);
    let mut r: Vec<char> = Vec::new();
    let mut i: usize = 0;
    while i < pieces.len()
        invariant
            ps == pieces@.map_values(|p: Vec<char>| p@),
            i <= pieces@.len(),
            r@ == join(ps.take(i as int), sep@),
        decreases pieces@.len() - i,
    {
        assert(ps.take(i as int + 1).drop_last() =~= ps.take(i as int));
        if i > 0 {
            let mut s = vstd::slice::slice_to_vec(sep);
            r.append(&mut s);
        }
        let mut p = pieces[i].clone();
        r.append(&mut p);
        i += 1;
        proof {
            if i == 1 {
                assert(r@ =~= join(ps.take(1), sep@));
            }
        }
    }
    assert(ps.take(pieces@.len() as int) =~= ps);
    r
}

/// `split_whitespace` followed by `join(" ")`: runs of whitespace collapse to one space and
/// leading or trailing whitespace disappears.
pub open spec fn normalized(s: Seq<char>) -> Seq<char> {
    join(words(s), " "@)
}

/// Collapses whitespace runs of a tag value (see [`normalized`]).
pub fn normalize_tag_value(raw: &[char]) -> (r: Vec<char>)
    ensures
        r@ == normalized(raw@),
{
    let mut ws: Vec<Vec<char>> = Vec::new();
    let mut i: usize = 0;
    while i < raw.len()
        invariant
            i <= raw@.len(),
            ws@.map_values(|p: Vec<char>| p@) == words(raw@.take(i as int)),
        decreases raw@.len() - i,
    {
        let c = raw[i];
        proof {
            assert(raw@.take(i as int + 1).drop_last() =~= raw@.take(i as int));
            lemma_words_nonempty(raw@.take(i as int));
        }
        if !is_whitespace_char(c) {
            if i >= 1 && !is_whitespace_char(raw[i - 1]) {
                let k = ws.len() - 1;
                let mut last = ws.remove(k);
                last.push(c);
                ws.push(last);
            } else {
                let mut w: Vec<char> = Vec::new();
                w.push(c);
                ws.push(w);
            }
        }
        i += 1;
        assert(ws@.map_values(|p: Vec<char>| p@) =~= words(raw@.take(i as int)));
    }
    assert(raw@.take(raw@.len() as int) =~= raw@);
    let sp = chars_of(" ");
    join_chars(&ws, sp.as_slice())
}


/// A value of a metadata tag as read from a file: missing, a text, or any other value in its
/// display form.
#[derive(Debug, Clone)]
pub enum TagValue {
    Null,
    Text(String),
    Other(String),
}

/// The mathematical value of a [`TagValue`].
pub enum TagValueView {
    Null,
    Text(Seq<char>),
    Other(Seq<char>),
}

impl View for TagValue {
    type V = TagValueView;

    open spec fn view(&self) -> TagValueView {
        match self {
            TagValue::Null => TagValueView::Null,
            TagValue::Text(s) => TagValueView::Text(s@),
            TagValue::Other(s) => TagValueView::Other(s@),
        }
    }
}

/// What a custom metadata tag reads as: nothing when the tag is absent or empty (a text of
/// whitespace only), its text otherwise, and the display form of a value that is not a text.
pub open spec fn spec_custom_tag_text(t: TagValueView) -> Option<Seq<char>> {
    match t {
        TagValueView::Null => None,
        TagValueView::Text(s) => if trim(s).len() == 0 {
            None
        } else {
            Some(s)
        },
        TagValueView::Other(s) => Some(s),
    }
}

/// What a custom metadata tag reads as (see [`spec_custom_tag_text`]).
pub fn custom_tag_text(t: TagValue) -> (r: Option<String>)
    ensures
        opt_text(r) == spec_custom_tag_text(t@),
{
    match t {
        TagValue::Null => None,
        TagValue::Text(s) => {
            let c = chars_of(s.as_str());
            if trim_chars(c.as_slice()).len() == 0 {
                None
            } else {
                Some(s)
            }
        },
        TagValue::Other(s) => Some(s),
    }
}

/// The part a tag value contributes to a camera name: its normalized text, unless that is
/// empty or the tag is missing.
pub open spec fn tag_part(t: TagValueView) -> Option<Seq<char>> {
    match t {
        TagValueView::Null => None,
        TagValueView::Text(s) => if s.len() == 0 || normalized(s).len() == 0 {
            None
        } else {
            Some(normalized(s))
        },
        TagValueView::Other(s) => if normalized(s).len() == 0 {
            None
        } else {
            Some(normalized(s))
        },
    }
}

/// The parts of a list of tag values, in order.
pub open spec fn tag_parts(ts: Seq<TagValueView>) -> Seq<Seq<char>>
    decreases ts.len(),
{
    if ts.len() == 0 {
        seq![]
    } else {
        match tag_part(ts.last()) {
            Some(p) => tag_parts(ts.drop_last()).push(p),
            None => tag_parts(ts.drop_last()),
        }
    }
}

/// The camera name made of the identifying tags of a file: the non-empty normalized tag
/// values joined with `-`, made into a valid file name.
pub open spec fn spec_device_id_from_tags(ts: Seq<TagValueView>) -> DeviceIdView {
    DeviceIdView::CameraId(filenamified(join(tag_parts(ts), "-"@)))
}

/// Builds the camera id of a file from its identifying tags, read in order
/// (see [`spec_device_id_from_tags`]).
pub fn device_id_from_tags(tags: &Vec<TagValue>) -> (r: DeviceId)
    ensures
        r@ == spec_device_id_from_tags(tags@.map_values(|t: TagValue| t@)),
{
    let ghost ts = tags@.map_values(|t: TagValue| t@);
    let mut parts: Vec<Vec<char>> = Vec::new();
    let mut i: usize = 0;
    while i < tags.len()
        invariant
            ts == tags@.map_values(|t: TagValue| t@),
            i <= tags@.len(),
            parts@.map_values(|p: Vec<char>| p@) == tag_parts(ts.take(i as int)),
        decreases tags@.len() - i,
    {
        assert(ts.take(i as int + 1).drop_last() =~= ts.take(i as int));
        let part: Option<Vec<char>> = match &tags[i] {
            TagValue::Null => None,
            TagValue::Text(s) => {
                let c = chars_of(s.as_str());
                if c.len() == 0 {
                    None
                } else {
                    let n = normalize_tag_value(c.as_slice());
                    if n.len() == 0 { None } else { Some(n) }
                }
            },
            TagValue::Other(s) => {
                let c = chars_of(s.as_str());
                let n = normalize_tag_value(c.as_slice());
                if n.len() == 0 { None } else { Some(n) }
            },
        };
        let ghost before = parts@.map_values(|p: Vec<char>| p@);
        match part {
            Some(p) => {
                parts.push(p);
                assert(parts@.map_values(|p: Vec<char>| p@) =~= before.push(p@));
            },
            None => {},
        }
        i += 1;
    }
    assert(ts.take(tags@.len() as int) =~= ts);
    let dash = chars_of("-");
    let joined = join_chars(&parts, dash.as_slice());
    let name = string_from(joined.as_slice());
    DeviceId::CameraId(filenamify(name.as_str()))
}

/// Whether a year of the proleptic Gregorian calendar is a leap year.
pub open spec fn leap_year(year: int) -> bool {
    year % 4 == 0 && (year % 100 != 0 || year % 400 == 0)
}

/// The number of days of a month (1 to 12) of a year.
pub open spec fn days_in_month(year: int, month: int) -> int {
    if month == 2 {
        if leap_year(year) {
            29
        } else {
            28
        }
    } else if month == 4 || month == 6 || month == 9 || month == 11 {
        30
    } else {
        31
    }
}

/// The number of days from 1970-01-01 to a date of the proleptic Gregorian calendar (negative
/// before it): whole 400-year eras of 146097 days, then the years of the era, counted from
/// March so that a leap day ends its year, then the days of the year.
pub open spec fn days_from_civil(year: int, month: int, day: int) -> int {
    let y = if month <= 2 {
        year - 1
    } else {
        year
    };
    let era = y / 400;
    let yoe = y - era * 400;
    let mp = (month + 9) % 12;
    let doy = (153 * mp + 2) / 5 + day - 1;
    let doe = yoe * 365 + yoe / 4 - yoe / 100 + doy;
    era * 146097 + doe - 719468
}

/// Milliseconds since 1970-01-01 00:00:00 UTC of a UTC date and time, when it exists: a year
/// that chrono can represent, a day of the month, and a time of day without leap second.
pub open spec fn utc_millis(year: i32, month: u32, day: u32, hour: u32, min: u32, sec: u32) -> Option<i64> {
    if -262143 <= year <= 262142 && 1 <= month <= 12 && 1 <= day <= days_in_month(year as int, month as int)
        && hour < 24 && min < 60 && sec < 60 {
        Some(((days_from_civil(year as int, month as int, day as int) * 86400 + hour * 3600 + min * 60 + sec)
            * 1000) as i64)
    } else {
        None
    }
}

/// `chrono::Utc.with_ymd_and_hms(..).single()` followed by `timestamp_millis`: the UTC
/// timestamp, in milliseconds, of a date and time of the proleptic Gregorian calendar, or
/// `None` when the date or the time does not exist or the year is out of chrono's range (see
/// [`utc_millis`]); the time is built with zero nanoseconds, so it is a whole number of
/// seconds.
#[verifier::external_body]
fn utc_timestamp_millis(year: i32, month: u32, day: u32, hour: u32, min: u32, sec: u32) -> (r: Option<i64>)
    ensures
        r == utc_millis(year, month, day, hour, min, sec),
        r matches Some(m) ==> m % 1000 == 0,
{
    match chrono::Utc.with_ymd_and_hms(year, month, day, hour, min, sec).single() {
        Some(dt) => Some(dt.timestamp_millis()),
        None => None,
    }
}

/// Why an EXIF date and time could not be read.
#[derive(Debug, Clone, Copy, PartialEq, Eq, Structural)]
pub enum DateTimeError {
    /// No space separates the date from the time.
    MissingTime,
    /// A `:` separated date component is not an `i32`.
    InvalidDateComponent,
    /// A `:` separated time component is not a `u32`.
    InvalidTimeComponent,
    /// The date does not have three components.
    WrongDateComponentCount,
    /// The time does not have three components.
    WrongTimeComponentCount,
    /// A date component is not positive (a placeholder date).
    PlaceholderZeroDate,
    /// The date or time does not exist.
    InvalidDateTime,
}

/// Number of bytes of a character in UTF-8.
pub open spec fn utf8_width(c: char) -> nat {
    let u = c as u32;
    if u < 0x80 {
        1
    } else if u < 0x800 {
        2
    } else if u < 0x10000 {
        3
    } else {
        4
    }
}

/// Number of bytes of a text in UTF-8.
pub open spec fn utf8_len(s: Seq<char>) -> nat
    decreases s.len(),
{
    if s.len() == 0 {
        0
    } else {
        utf8_len(s.drop_last()) + utf8_width(s.last())
    }
}

pub open spec fn is_zone_marker(c: char) -> bool {
    c == '+' || c == '-' || c == 'Z'
}

/// Index of the last `+`, `-` or `Z`.
pub open spec fn last_zone_marker(s: Seq<char>) -> Option<int>
    decreases s.len(),
{
    if s.len() == 0 {
        None
    } else if is_zone_marker(s.last()) {
        Some(s.len() - 1)
    } else {
        last_zone_marker(s.drop_last())
    }
}

/// Drops a time zone suffix: everything from the last `+`, `-` or `Z`, when that character
/// starts more than 10 bytes in (so the dashes of a date are kept).
pub open spec fn strip_zone(s: Seq<char>) -> Seq<char> {
    match last_zone_marker(s) {
        Some(k) => if utf8_len(s.take(k)) > 10 {
            s.take(k)
        } else {
            s
        },
        None => s,
    }
}

/// Text without a zone marker after a marker leaves that marker the last one.
proof fn lemma_last_zone_marker_after(a: Seq<char>, z: Seq<char>)
    requires
        forall|i: int| 0 <= i < z.len() ==> #[trigger] z[i] != '+' && z[i] != '-' && z[i] != 'Z',
    ensures
        last_zone_marker(a + z) == last_zone_marker(a),
    decreases z.len(),
{
    if z.len() > 0 {
        assert((a + z).last() == z.last());
        assert((a + z).drop_last() =~= a + z.drop_last());
        lemma_last_zone_marker_after(a, z.drop_last());
    } else {
        assert(a + z =~= a);
    }
}

/// What a date-time text comes to once a zone suffix `m` followed by `z` is dropped.
proof fn lemma_zone_dropped(s: Seq<char>, m: char, z: Seq<char>)
    requires
        m == '+' || m == '-' || m == 'Z',
        s.len() > 0,
        !is_whitespace(s[0]),
        utf8_len(s) > 10,
        !s.contains('.'),
        forall|i: int| 0 <= i < z.len() ==> #[trigger] z[i] != '+' && z[i] != '-' && z[i] != 'Z' && z[i] != '.',
        z.len() == 0 || !is_whitespace(z.last()),
    ensures
        trim(strip_zone(trim(strip_subseconds(s + seq![m] + z)))) == trim(s),
{
    let x = s + seq![m] + z;
    if find_from(x, "."@, 0) is Some {
        let k = find_from(x, "."@, 0)->0;
        lemma_find_from_first(x, "."@, 0, k);
        reveal_strlit(".");
        assert(x.subrange(k, k + 1)[0] == x[k]);
        if k < s.len() {
            assert(x[k] == s[k]);
            assert(s.contains('.'));
        } else if k == s.len() {
            assert(x[k] == m);
        } else {
            assert(x[k] == z[k - s.len() - 1]);
        }
    }
    assert(strip_subseconds(x) == x);
    assert(x[0] == s[0]);
    if z.len() == 0 {
        assert(x.last() == m);
    } else {
        assert(x.last() == z.last());
    }
    lemma_trim_unchanged(x);
    lemma_last_zone_marker_after(s + seq![m], z);
    assert((s + seq![m]).last() == m);
    assert((s + seq![m]).drop_last() =~= s);
    assert(last_zone_marker(x) == Some(s.len() as int));
    assert(x.take(s.len() as int) =~= s);
}

/// A time zone suffix is dropped whatever it starts with: after a date and time (a text of
/// more than 10 bytes, without sub-seconds), `-hh:mm`, `+hh:mm` and `Z` give the same
/// timestamp.
pub proof fn law_zone_sign_irrelevant(s: Seq<char>, z: Seq<char>)
    requires
        s.len() > 0,
        !is_whitespace(s[0]),
        utf8_len(s) > 10,
        !s.contains('.'),
        forall|i: int| 0 <= i < z.len() ==> #[trigger] z[i] != '+' && z[i] != '-' && z[i] != 'Z' && z[i] != '.',
        z.len() == 0 || !is_whitespace(z.last()),
    ensures
        spec_exif_datetime_to_ms(s + "-"@ + z) == spec_exif_datetime_to_ms(s + "+"@ + z),
        spec_exif_datetime_to_ms(s + "-"@ + z) == spec_exif_datetime_to_ms(s + "Z"@),
{
    reveal_strlit("-");
    reveal_strlit("+");
    reveal_strlit("Z");
    assert("-"@ =~= seq!['-']);
    assert("+"@ =~= seq!['+']);
    assert("Z"@ =~= seq!['Z']);
    lemma_zone_dropped(s, '-', z);
    lemma_zone_dropped(s, '+', z);
    lemma_zone_dropped(s, 'Z', Seq::<char>::empty());
    assert(s + "Z"@ =~= s + seq!['Z'] + Seq::<char>::empty());
}

/// Drops sub-seconds: everything from the first `.`.
pub open spec fn strip_subseconds(s: Seq<char>) -> Seq<char> {
    match split_once(s, "."@) {
        Some((a, _)) => a,
        None => s,
    }
}

/// `T` becomes a space and `-` becomes `:`, so both EXIF and ISO forms read as
/// `YYYY:MM:DD HH:MM:SS`.
pub open spec fn normalize_separators(s: Seq<char>) -> Seq<char> {
    s.map_values(|c: char| if c == 'T' { ' ' } else if c == '-' { ':' } else { c })
}

/// Every piece read as an `i32`, or `None` when one is not.
pub open spec fn parse_all_i32(ps: Seq<Seq<char>>) -> Option<Seq<int>>
    decreases ps.len(),
{
    if ps.len() == 0 {
        Some(seq![])
    } else {
        match (parse_all_i32(ps.drop_last()), parse_i32(ps.last())) {
            (Some(vs), Some(v)) => Some(vs.push(v)),
            _ => None,
        }
    }
}

/// Every piece read as a `u32`, or `None` when one is not.
pub open spec fn parse_all_u32(ps: Seq<Seq<char>>) -> Option<Seq<nat>>
    decreases ps.len(),
{
    if ps.len() == 0 {
        Some(seq![])
    } else {
        match (parse_all_u32(ps.drop_last()), parse_unsigned(ps.last(), u32::MAX as int)) {
            (Some(vs), Some(v)) => Some(vs.push(v)),
            _ => None,
        }
    }
}

/// The UTC timestamp, in milliseconds, of an EXIF or ISO date and time such as
/// `2023:01:15 10:30:00` or `2023-01-15T10:30:00.25+05:30` (sub-seconds and time zone are
/// dropped). A timestamp before 1970 wraps around, as a cast to `u64` does.
pub open spec fn spec_exif_datetime_to_ms(s: Seq<char>) -> Result<u64, DateTimeError> {
    let clean = trim(strip_subseconds(s));
    let clean = trim(strip_zone(clean));
    let norm = normalize_separators(clean);
    match split_once(norm, " "@) {
        None => Err(DateTimeError::MissingTime),
        Some((d, t)) => match parse_all_i32(split_char(d, ':')) {
            None => Err(DateTimeError::InvalidDateComponent),
            Some(dp) => match parse_all_u32(split_char(t, ':')) {
                None => Err(DateTimeError::InvalidTimeComponent),
                Some(tp) => if dp.len() != 3 {
                    Err(DateTimeError::WrongDateComponentCount)
                } else if tp.len() != 3 {
                    Err(DateTimeError::WrongTimeComponentCount)
                } else if !(dp[0] > 0 && dp[1] > 0 && dp[2] > 0) {
                    Err(DateTimeError::PlaceholderZeroDate)
                } else {
                    match utc_millis(dp[0] as i32, dp[1] as u32, dp[2] as u32, tp[0] as u32, tp[1] as u32, tp[2] as u32) {
                        Some(ms) => Ok(ms as u64),
                        None => Err(DateTimeError::InvalidDateTime),
                    }
                },
            },
        },
    }
}

proof fn lemma_parse_i32_range(s: Seq<char>)
    ensures
        parse_i32(s) matches Some(v) ==> i32::MIN <= v <= i32::MAX,
{
}

proof fn lemma_utf8_len_monotone(s: Seq<char>, k: int)
    requires
        0 <= k <= s.len(),
    ensures
        utf8_len(s.take(k)) <= utf8_len(s),
    decreases s.len(),
{
    if k < s.len() {
        assert(s.drop_last().take(k) =~= s.take(k));
        lemma_utf8_len_monotone(s.drop_last(), k);
    } else {
        assert(s.take(k) =~= s);
    }
}

fn strip_zone_chars(s: &[char]) -> (r: Vec<char>)
    ensures
        r@ == strip_zone(s@),
{
    let n = s.len();
    let mut k: usize = n;
    assert(s@.take(n as int) =~= s@);
    while k > 0 && !(s[k - 1] == '+' || s[k - 1] == '-' || s[k - 1] == 'Z')
        invariant
            n == s@.len(),
            k <= n,
            last_zone_marker(s@) == last_zone_marker(s@.take(k as int)),
        decreases k,
    {
        assert(s@.take(k as int).drop_last() =~= s@.take(k as int - 1));
        k -= 1;
    }
    if k == 0 {
        assert(s@.take(0) =~= Seq::<char>::empty());
        return vstd::slice::slice_to_vec(s);
    }
    let pos = k - 1;
    assert(s@.take(k as int).drop_last() =~= s@.take(pos as int));
    let mut bytes: usize = 0;
    let mut i: usize = 0;
    while i < pos && bytes <= 10
        invariant
            pos < n,
            n == s@.len(),
            i <= pos,
            bytes == utf8_len(s@.take(i as int)),
            bytes <= 14,
        decreases pos - i,
    {
        let u = s[i] as u32;
        let w: usize = if u < 0x80 { 1 } else if u < 0x800 { 2 } else if u < 0x10000 { 3 } else { 4 };
        assert(s@.take(i as int + 1).drop_last() =~= s@.take(i as int));
        bytes = bytes + w;
        i += 1;
    }
    proof {
        lemma_utf8_len_monotone(s@.take(pos as int), i as int);
        assert(s@.take(pos as int).take(i as int) =~= s@.take(i as int));
        if bytes <= 10 {
            assert(i == pos);
        }
    }
    if bytes > 10 {
        let r = vstd::slice::slice_to_vec(vstd::slice::slice_subrange(s, 0, pos));
        assert(r@ =~= s@.take(pos as int));
        r
    } else {
        vstd::slice::slice_to_vec(s)
    }
}

fn parse_date_parts(d: &[char]) -> (r: Option<Vec<i32>>)
    ensures
        match parse_all_i32(split_char(d@, ':')) {
            Some(vs) => r matches Some(x) && x@.map_values(|v: i32| v as int) == vs,
            None => r is None,
        },
{
    let dparts = split_chars(d, ':');
    let ghost dps = split_char(d@, ':');
    let mut date_parts: Vec<i32> = Vec::new();
    let mut j: usize = 0;
    while j < dparts.len()
        invariant
            dps == split_char(d@, ':'),
            dparts@.len() == dps.len(),
            forall|k: int| 0 <= k < dparts@.len() ==> #[trigger] dparts@[k]@ == dps[k],
            j <= dparts@.len(),
            parse_all_i32(dps.take(j as int)) matches Some(vs) && vs == date_parts@.map_values(|x: i32| x as int),
        decreases dparts@.len() - j,
    {
        assert(dps.take(j as int + 1).drop_last() =~= dps.take(j as int));
        match parse_i32_chars(dparts[j].as_slice()) {
            Some(v) => {
                proof { lemma_parse_i32_range(dps[j as int]); }
                let ghost before = date_parts@.map_values(|x: i32| x as int);
                date_parts.push(v);
                assert(date_parts@.map_values(|x: i32| x as int) =~= before.push(v as int));
            },
            None => {
                proof {
                    lemma_parse_all_i32_fails(dps, j as int);
                }
                return None;
            },
        }
        j += 1;
    }
    assert(dps.take(dparts@.len() as int) =~= dps);
    Some(date_parts)
}

fn parse_time_parts(t: &[char]) -> (r: Option<Vec<u32>>)
    ensures
        match parse_all_u32(split_char(t@, ':')) {
            Some(vs) => r matches Some(x) && x@.map_values(|v: u32| v as nat) == vs,
            None => r is None,
        },
{
    let tparts = split_chars(t, ':');
    let ghost tps = split_char(t@, ':');
    let mut time_parts: Vec<u32> = Vec::new();
    let mut j: usize = 0;
    while j < tparts.len()
        invariant
            tps == split_char(t@, ':'),
            tparts@.len() == tps.len(),
            forall|k: int| 0 <= k < tparts@.len() ==> #[trigger] tparts@[k]@ == tps[k],
            j <= tparts@.len(),
            parse_all_u32(tps.take(j as int)) matches Some(vs) && vs == time_parts@.map_values(|x: u32| x as nat),
        decreases tparts@.len() - j,
    {
        assert(tps.take(j as int + 1).drop_last() =~= tps.take(j as int));
        match parse_u32(tparts[j].as_slice()) {
            Some(v) => {
                let ghost before = time_parts@.map_values(|x: u32| x as nat);
                time_parts.push(v);
                assert(time_parts@.map_values(|x: u32| x as nat) =~= before.push(v as nat));
            },
            None => {
                proof { lemma_parse_all_u32_fails(tps, j as int); }
                return None;
            },
        }
        j += 1;
    }
    assert(tps.take(tparts@.len() as int) =~= tps);
    Some(time_parts)
}

/// Reads an EXIF or ISO date and time as a UTC timestamp in milliseconds
/// (see [`spec_exif_datetime_to_ms`]).
pub fn exif_datetime_to_ms(datetime_str: &str) -> (r: Result<u64, DateTimeError>)
    ensures
        r == spec_exif_datetime_to_ms(datetime_str@),
        r matches Ok(v) ==> v <= u64::MAX - 999,
{
    let s = chars_of(datetime_str);
    let dot = chars_of(".");
    let first = match split_once_chars(s.as_slice(), dot.as_slice()) {
        Some((a, _)) => a,
        None => s,
    };
    let clean = trim_chars(first.as_slice());
    let stripped = strip_zone_chars(clean.as_slice());
    let clean = trim_chars(stripped.as_slice());
    let mut norm: Vec<char> = Vec::new();
    let mut i: usize = 0;
    while i < clean.len()
        invariant
            i <= clean@.len(),
            norm@ == normalize_separators(clean@.take(i as int)),
        decreases clean@.len() - i,
    {
        let c = clean[i];
        norm.push(if c == 'T' { ' ' } else if c == '-' { ':' } else { c });
        i += 1;
        assert(norm@ =~= normalize_separators(clean@.take(i as int)));
    }
    assert(clean@.take(clean@.len() as int) =~= clean@);
    let space = chars_of(" ");
    let (d, t) = match split_once_chars(norm.as_slice(), space.as_slice()) {
        Some(p) => p,
        None => return Err(DateTimeError::MissingTime),
    };
    let date_parts = match parse_date_parts(d.as_slice()) {
        Some(v) => v,
        None => return Err(DateTimeError::InvalidDateComponent),
    };
    let time_parts = match parse_time_parts(t.as_slice()) {
        Some(v) => v,
        None => return Err(DateTimeError::InvalidTimeComponent),
    };
    if date_parts.len() != 3 {
        return Err(DateTimeError::WrongDateComponentCount);
    }
    if time_parts.len() != 3 {
        return Err(DateTimeError::WrongTimeComponentCount);
    }
    if !(date_parts[0] > 0 && date_parts[1] > 0 && date_parts[2] > 0) {
        return Err(DateTimeError::PlaceholderZeroDate);
    }
    match utc_timestamp_millis(
        date_parts[0],
        date_parts[1] as u32,
        date_parts[2] as u32,
        time_parts[0],
        time_parts[1],
        time_parts[2],
    ) {
        Some(ms) => {
            assert(ms >= 0 || ms <= -1000);
            assert((ms as u64) <= 0xffff_ffff_ffff_fc18u64) by (bit_vector)
                requires
                    ms >= 0 || ms <= -1000,
            ;
            Ok(ms as u64)
        },
        None => Err(DateTimeError::InvalidDateTime),
    }
}

proof fn lemma_parse_all_i32_fails(ps: Seq<Seq<char>>, j: int)
    requires
        0 <= j < ps.len(),
        parse_all_i32(ps.take(j + 1)) is None,
    ensures
        parse_all_i32(ps) is None,
    decreases ps.len() - j,
{
    if j + 1 == ps.len() {
        assert(ps.take(j + 1) =~= ps);
    } else {
        assert(ps.take(j + 2).drop_last() =~= ps.take(j + 1));
        lemma_parse_all_i32_fails(ps, j + 1);
    }
}

proof fn lemma_parse_all_u32_fails(ps: Seq<Seq<char>>, j: int)
    requires
        0 <= j < ps.len(),
        parse_all_u32(ps.take(j + 1)) is None,
    ensures
        parse_all_u32(ps) is None,
    decreases ps.len() - j,
{
    if j + 1 == ps.len() {
        assert(ps.take(j + 1) =~= ps);
    } else {
        assert(ps.take(j + 2).drop_last() =~= ps.take(j + 1));
        lemma_parse_all_u32_fails(ps, j + 1);
    }
}

/// Bytes of a character in UTF-8, computed.
fn char_width(c: char) -> (r: u8)
    ensures
        r == utf8_width(c),
{
    let u = c as u32;
    if u < 0x80 {
        1
    } else if u < 0x800 {
        2
    } else if u < 0x10000 {
        3
    } else {
        4
    }
}

/// Number of leading characters of `s` that fill exactly `budget` bytes of UTF-8, or all of
/// `s` when it is shorter; `None` when a character straddles the limit.
pub open spec fn chars_in_bytes(s: Seq<char>, budget: int) -> Option<nat>
    decreases s.len(),
{
    if budget <= 0 || s.len() == 0 {
        Some(0)
    } else if utf8_width(s[0]) > budget {
        None
    } else {
        match chars_in_bytes(s.drop_first(), budget - utf8_width(s[0])) {
            Some(k) => Some(k + 1),
            None => None,
        }
    }
}

/// The sub-second text, cut after its first three bytes, right-padded with `0` to three
/// characters (the cut is only defined where it falls between characters).
pub open spec fn subsec_digits(s: Seq<char>) -> Seq<char> {
    let t = s.take(chars_in_bytes(s, 3)->0 as int);
    if t.len() < 3 {
        t + Seq::new((3 - t.len()) as nat, |i: int| '0')
    } else {
        t
    }
}

/// The milliseconds of an EXIF sub-second text (`907` is 907, `91` is 910, `9` is 900): its
/// first three bytes, padded to three characters with `0`, read as a number; 0 when they do
/// not read as one.
pub open spec fn spec_subsec_millis(s: Seq<char>) -> nat {
    match parse_unsigned(subsec_digits(s), u64::MAX as int) {
        Some(v) => v,
        None => 0,
    }
}

proof fn lemma_chars_in_bytes_len(s: Seq<char>, budget: int)
    requires
        chars_in_bytes(s, budget) is Some,
    ensures
        chars_in_bytes(s, budget)->0 <= s.len(),
        budget >= 0 ==> chars_in_bytes(s, budget)->0 <= budget,
    decreases s.len(),
{
    if !(budget <= 0 || s.len() == 0) {
        lemma_chars_in_bytes_len(s.drop_first(), budget - utf8_width(s[0]));
    }
}

/// `10` to the power `n`.
pub open spec fn pow10(n: nat) -> nat
    decreases n,
{
    if n == 0 {
        1
    } else {
        10 * pow10((n - 1) as nat)
    }
}

proof fn lemma_digits_bound(d: Seq<char>)
    requires
        all_digits(d),
    ensures
        digits_value(d) < pow10(d.len()),
    decreases d.len(),
{
    if d.len() > 0 {
        let a = d.drop_last();
        assert forall|i: int| 0 <= i < a.len() implies is_digit(#[trigger] a[i]) by {
            assert(a[i] == d[i]);
        }
        lemma_digits_bound(a);
        assert(is_digit(d[d.len() - 1]));
    }
}

proof fn lemma_three_digits(d: Seq<char>)
    requires
        d.len() <= 3,
        all_digits(d),
    ensures
        digits_value(d) <= 999,
{
    lemma_digits_bound(d);
    reveal_with_fuel(pow10, 4);
}

/// Whether the first three bytes of a text end between characters.
fn cut_fits(s: &str) -> (r: bool)
    ensures
        r == (chars_in_bytes(s@, 3) is Some),
{
    let cs = chars_of(s);
    let mut budget: u8 = 3;
    let mut i: usize = 0;
    assert(cs@.skip(0) =~= cs@);
    while i < cs.len() && budget > 0
        invariant
            cs@ == s@,
            i <= cs@.len(),
            budget <= 3,
            (chars_in_bytes(s@, 3) is Some) == (chars_in_bytes(cs@.skip(i as int), budget as int) is Some),
        decreases cs@.len() - i,
    {
        let w = char_width(cs[i]);
        assert(cs@.skip(i as int).drop_first() =~= cs@.skip(i + 1));
        assert(cs@.skip(i as int)[0] == cs@[i as int]);
        if w > budget {
            return false;
        }
        budget = budget - w;
        i += 1;
    }
    true
}

/// The milliseconds of an EXIF sub-second text (see [`spec_subsec_millis`]); the text's first
/// three bytes must end between characters, as the cut panics otherwise.
pub fn subsec_millis(s: &str) -> (r: u64)
    requires
        chars_in_bytes(s@, 3) is Some,
    ensures
        r == spec_subsec_millis(s@),
        r <= 999,
{
    let cs = chars_of(s);
    let mut t: Vec<char> = Vec::new();
    let mut budget: u8 = 3;
    let mut i: usize = 0;
    assert(cs@.skip(0) =~= cs@);
    while i < cs.len() && budget > 0
        invariant
            cs@ == s@,
            i <= cs@.len(),
            budget <= 3,
            t@ == cs@.take(i as int),
            chars_in_bytes(s@, 3) matches Some(k) && chars_in_bytes(cs@.skip(i as int), budget as int)
                matches Some(k2) && k == i + k2,
        decreases cs@.len() - i,
    {
        let w = char_width(cs[i]);
        assert(cs@.skip(i as int).drop_first() =~= cs@.skip(i + 1));
        assert(cs@.skip(i as int)[0] == cs@[i as int]);
        t.push(cs[i]);
        budget = budget - w;
        i += 1;
        assert(t@ =~= cs@.take(i as int));
    }
    proof {
        lemma_chars_in_bytes_len(s@, 3);
    }
    assert(t@ == s@.take(chars_in_bytes(s@, 3)->0 as int));
    let ghost t0 = t@;
    while t.len() < 3
        invariant
            t0.len() <= 3,
            t0.len() <= t@.len() <= 3,
            t@ =~= t0 + Seq::new((t@.len() - t0.len()) as nat, |j: int| '0'),
        decreases 3 - t@.len(),
    {
        t.push('0');
        assert(t@ =~= t0 + Seq::new((t@.len() - t0.len()) as nat, |j: int| '0'));
    }
    assert(t@ =~= subsec_digits(s@));
    match parse_u64(t.as_slice()) {
        Some(v) => {
            proof {
                let d = if t@[0] == '+' { t@.drop_first() } else { t@ };
                lemma_three_digits(d);
            }
            v
        },
        None => 0,
    }
}

/// The text of an optional string.
pub open spec fn opt_text(o: Option<String>) -> Option<Seq<char>> {
    match o {
        Some(s) => Some(s@),
        None => None,
    }
}

/// The texts of a list of optional strings.
pub open spec fn opt_texts(v: Seq<Option<String>>) -> Seq<Option<Seq<char>>> {
    v.map_values(|o: Option<String>| opt_text(o))
}

/// The texts of a list of pairs of optional strings.
pub open spec fn opt_text_pairs(v: Seq<(Option<String>, Option<String>)>) -> Seq<(Option<Seq<char>>, Option<Seq<char>>)> {
    v.map_values(|p: (Option<String>, Option<String>)| (opt_text(p.0), opt_text(p.1)))
}

/// Whether a tag text reads as an EXIF date and time.
pub open spec fn reads_as_datetime(o: Option<Seq<char>>) -> bool {
    o matches Some(s) && spec_exif_datetime_to_ms(s) is Ok
}

/// Index of the first tag text at or after `i` that reads as an EXIF date and time.
pub open spec fn first_datetime_index(tags: Seq<Option<Seq<char>>>, i: int) -> Option<int>
    decreases tags.len() - i,
{
    if i < 0 || i >= tags.len() {
        None
    } else if reads_as_datetime(tags[i]) {
        Some(i)
    } else {
        first_datetime_index(tags, i + 1)
    }
}

proof fn lemma_first_datetime_index(tags: Seq<Option<Seq<char>>>, i: int)
    ensures
        first_datetime_index(tags, i) matches Some(k) ==> 0 <= i <= k < tags.len() && reads_as_datetime(tags[k]),
    decreases tags.len() - i,
{
    if !(i < 0 || i >= tags.len()) && !reads_as_datetime(tags[i]) {
        lemma_first_datetime_index(tags, i + 1);
    }
}

/// The milliseconds of a tag text that reads as an EXIF date and time.
pub open spec fn datetime_ms(o: Option<Seq<char>>) -> u64 {
    spec_exif_datetime_to_ms(o->0)->Ok_0
}

/// The milliseconds of an optional sub-second text (0 when absent).
pub open spec fn opt_subsec_millis(o: Option<Seq<char>>) -> nat {
    match o {
        Some(t) => spec_subsec_millis(t),
        None => 0,
    }
}

/// The creation time of a file, in milliseconds since the epoch, from what is known of it, in
/// this order: the time written into its name (`stem`, when the name is text); the first of
/// the sub-second date-time tags that reads; the first date-time tag of the pairs that reads,
/// plus the milliseconds of its sub-second tag; the first of the video date tags that reads.
pub open spec fn spec_creation_time(
    stem: Option<Seq<char>>,
    subsec_tags: Seq<Option<Seq<char>>>,
    pairs: Seq<(Option<Seq<char>>, Option<Seq<char>>)>,
    video_tags: Seq<Option<Seq<char>>>,
) -> Option<nat> {
    let named = match stem {
        Some(st) => spec_creation_time_from_stem(st),
        None => None,
    };
    let dts = pairs.map_values(|p: (Option<Seq<char>>, Option<Seq<char>>)| p.0);
    if named is Some {
        Some(named->0 as nat)
    } else if first_datetime_index(subsec_tags, 0) is Some {
        Some(datetime_ms(subsec_tags[first_datetime_index(subsec_tags, 0)->0]) as nat)
    } else if first_datetime_index(dts, 0) is Some {
        let i = first_datetime_index(dts, 0)->0;
        Some(datetime_ms(pairs[i].0) as nat + opt_subsec_millis(pairs[i].1))
    } else if first_datetime_index(video_tags, 0) is Some {
        Some(datetime_ms(video_tags[first_datetime_index(video_tags, 0)->0]) as nat)
    } else {
        None
    }
}

/// The sub-second text that [`spec_creation_time`] reads, if it reads one.
pub open spec fn subsec_text_used(
    stem: Option<Seq<char>>,
    subsec_tags: Seq<Option<Seq<char>>>,
    pairs: Seq<(Option<Seq<char>>, Option<Seq<char>>)>,
) -> Option<Seq<char>> {
    let named = match stem {
        Some(st) => spec_creation_time_from_stem(st),
        None => None,
    };
    let dts = pairs.map_values(|p: (Option<Seq<char>>, Option<Seq<char>>)| p.0);
    if named is None && first_datetime_index(subsec_tags, 0) is None && first_datetime_index(dts, 0) is Some {
        pairs[first_datetime_index(dts, 0)->0].1
    } else {
        None
    }
}

/// Index of the first tag text that reads as an EXIF date and time, and its milliseconds.
fn first_datetime(tags: &Vec<Option<String>>) -> (r: Option<(usize, u64)>)
    ensures
        match first_datetime_index(opt_texts(tags@), 0) {
            None => r is None,
            Some(i) => r matches Some((j, ms)) && j == i && ms == datetime_ms(opt_texts(tags@)[i]) && ms <= u64::MAX - 999,
        },
{
    let ghost ts = opt_texts(tags@);
    let mut i: usize = 0;
    while i < tags.len()
        invariant
            ts == opt_texts(tags@),
            i <= tags@.len(),
            first_datetime_index(ts, 0) == first_datetime_index(ts, i as int),
        decreases tags@.len() - i,
    {
        assert(ts[i as int] == opt_text(tags@[i as int]));
        match &tags[i] {
            Some(s) => {
                match exif_datetime_to_ms(s.as_str()) {
                    Ok(ms) => {
                        return Some((i, ms));
                    },
                    Err(_) => {},
                }
            },
            None => {},
        }
        i += 1;
    }
    None
}

/// The date and time texts of the pairs of date and sub-second tags.
fn pair_datetimes(pairs: &Vec<(Option<String>, Option<String>)>) -> (r: Vec<Option<String>>)
    ensures
        opt_texts(r@) == opt_text_pairs(pairs@).map_values(|p: (Option<Seq<char>>, Option<Seq<char>>)| p.0),
{
    let ghost ps = opt_text_pairs(pairs@);
    let ghost dts = ps.map_values(|p: (Option<Seq<char>>, Option<Seq<char>>)| p.0);
    let mut dt_tags: Vec<Option<String>> = Vec::new();
    let mut k: usize = 0;
    while k < pairs.len()
        invariant
            ps == opt_text_pairs(pairs@),
            dts == ps.map_values(|p: (Option<Seq<char>>, Option<Seq<char>>)| p.0),
            k <= pairs@.len(),
            dts.len() == pairs@.len(),
            dt_tags@.len() == k,
            forall|j: int| 0 <= j < k ==> opt_text(#[trigger] dt_tags@[j]) == dts[j],
        decreases pairs@.len() - k,
    {
        let dt: Option<String> = match &pairs[k].0 {
            Some(t) => Some(t.clone()),
            None => None,
        };
        proof {
            assert(ps[k as int] == (opt_text(pairs@[k as int].0), opt_text(pairs@[k as int].1)));
            assert(dts[k as int] == ps[k as int].0);
            assert(opt_text(dt) == dts[k as int]);
        }
        dt_tags.push(dt);
        k += 1;
    }
    assert(opt_texts(dt_tags@) =~= dts);
    dt_tags
}

/// Whether reading a creation time cuts the sub-second text it uses between characters, as
/// [`creation_time_ms`] requires (see [`subsec_text_used`]).
pub fn creation_time_cut_fits(
    stem: Option<&str>,
    subsec_tags: &Vec<Option<String>>,
    pairs: &Vec<(Option<String>, Option<String>)>,
) -> (r: bool)
    ensures
        r == (subsec_text_used(
            match stem { Some(st) => Some(st@), None => None },
            opt_texts(subsec_tags@),
            opt_text_pairs(pairs@),
        ) matches Some(t) ==> chars_in_bytes(t, 3) is Some),
{
    if let Some(st) = stem {
        if creation_time_from_stem(st).is_some() {
            return true;
        }
    }
    if first_datetime(subsec_tags).is_some() {
        return true;
    }
    let ghost ps = opt_text_pairs(pairs@);
    let ghost dts = ps.map_values(|p: (Option<Seq<char>>, Option<Seq<char>>)| p.0);
    let dt_tags = pair_datetimes(pairs);
    match first_datetime(&dt_tags) {
        Some((i, _)) => {
            proof {
                lemma_first_datetime_index(dts, 0);
                assert(ps[i as int].1 == opt_text(pairs@[i as int].1));
            }
            match &pairs[i].1 {
                Some(t) => cut_fits(t.as_str()),
                None => true,
            }
        },
        None => true,
    }
}

/// The creation time of a file from its name and its tag texts (see [`spec_creation_time`]);
/// the sub-second text that is read must be cut between characters, as the cut panics
/// otherwise.
pub fn creation_time_ms(
    stem: Option<&str>,
    subsec_tags: &Vec<Option<String>>,
    pairs: &Vec<(Option<String>, Option<String>)>,
    video_tags: &Vec<Option<String>>,
) -> (r: Option<u64>)
    requires
        subsec_text_used(
            match stem { Some(st) => Some(st@), None => None },
            opt_texts(subsec_tags@),
            opt_text_pairs(pairs@),
        ) matches Some(t) ==> chars_in_bytes(t, 3) is Some,
    ensures
        match spec_creation_time(
            match stem { Some(st) => Some(st@), None => None },
            opt_texts(subsec_tags@),
            opt_text_pairs(pairs@),
            opt_texts(video_tags@),
        ) {
            None => r is None,
            Some(v) => r matches Some(x) && x == v,
        },
{
    if let Some(st) = stem {
        if let Some(ms) = creation_time_from_stem(st) {
            return Some(ms);
        }
    }
    if let Some((_, ms)) = first_datetime(subsec_tags) {
        return Some(ms);
    }
    let ghost ps = opt_text_pairs(pairs@);
    let ghost dts = ps.map_values(|p: (Option<Seq<char>>, Option<Seq<char>>)| p.0);
    let dt_tags = pair_datetimes(pairs);
    if let Some((i, ms)) = first_datetime(&dt_tags) {
        proof {
            lemma_first_datetime_index(dts, 0);
            assert(ps[i as int].1 == opt_text(pairs@[i as int].1));
        }
        let sub = match &pairs[i].1 {
            Some(t) => subsec_millis(t.as_str()),
            None => 0,
        };
        return Some(ms + sub);
    }
    match first_datetime(video_tags) {
        Some((_, ms)) => Some(ms),
        None => None,
    }
}

/// Whether `char::is_alphanumeric` holds of a character.
pub uninterp spec fn alphanumeric(c: char) -> bool;

/// `char::is_alphanumeric`: whether a character is Unicode `Alphabetic` or `Numeric`. The
/// contract names the answer ([`alphanumeric`]) and states that ASCII letters and digits have
/// it; the Unicode tables are not stated.
#[verifier::external_body]
fn is_alphanumeric(c: char) -> (r: bool)
    ensures
        r == alphanumeric(c),
        ('a' <= c <= 'z' || 'A' <= c <= 'Z' || '0' <= c <= '9') ==> r,
{
    c.is_alphanumeric()
}

/// A key made safe to write: only alphanumeric characters and `_` are allowed, to prevent
/// injection, so each other character becomes `_`.
pub open spec fn sanitized_key(key: Seq<char>) -> Seq<char> {
    key.map_values(|c: char| if alphanumeric(c) || c == '_' { c } else { '_' })
}

/// The tag a custom metadata value is written under: `XMP-custom:` and the sanitized key.
pub open spec fn spec_write_metadata_tag(key: Seq<char>) -> Seq<char> {
    "XMP-custom:"@ + sanitized_key(key)
}

/// Whether a key may be read or deleted: every character alphanumeric or `_`.
pub open spec fn valid_metadata_key(key: Seq<char>) -> bool {
    forall|i: int| 0 <= i < key.len() ==> alphanumeric(#[trigger] key[i]) || key[i] == '_'
}

/// The tag a custom metadata value is read from: `XMP-custom:` and the key, for a valid key.
pub open spec fn spec_read_metadata_tag(key: Seq<char>) -> Option<Seq<char>> {
    if valid_metadata_key(key) {
        Some("XMP-custom:"@ + key)
    } else {
        None
    }
}

/// The tag assignment that deletes a custom metadata value (an empty right-hand side), for a
/// valid key.
pub open spec fn spec_delete_metadata_tag(key: Seq<char>) -> Option<Seq<char>> {
    if valid_metadata_key(key) {
        Some("XMP-custom:"@ + key + "="@)
    } else {
        None
    }
}

fn valid_key_chars(k: &[char]) -> (r: bool)
    ensures
        r == valid_metadata_key(k@),
{
    let mut i: usize = 0;
    while i < k.len()
        invariant
            i <= k@.len(),
            forall|j: int| 0 <= j < i ==> alphanumeric(#[trigger] k@[j]) || k@[j] == '_',
        decreases k@.len() - i,
    {
        if !(is_alphanumeric(k[i]) || k[i] == '_') {
            return false;
        }
        i += 1;
    }
    true
}

/// The tag a custom metadata value is written under (see [`spec_write_metadata_tag`]).
pub fn write_metadata_tag(key: &str) -> (r: String)
    ensures
        r@ == spec_write_metadata_tag(key@),
{
    let k = chars_of(key);
    let mut v = chars_of("XMP-custom:");
    let ghost head = v@;
    let mut i: usize = 0;
    while i < k.len()
        invariant
            k@ == key@,
            i <= k@.len(),
            v@ == head + sanitized_key(k@.take(i as int)),
        decreases k@.len() - i,
    {
        let c = k[i];
        v.push(if is_alphanumeric(c) || c == '_' { c } else { '_' });
        i += 1;
        assert(v@ =~= head + sanitized_key(k@.take(i as int)));
    }
    assert(k@.take(k@.len() as int) =~= k@);
    string_from(v.as_slice())
}

/// The tag a custom metadata value is read from (see [`spec_read_metadata_tag`]).
pub fn read_metadata_tag(key: &str) -> (r: Option<String>)
    ensures
        match spec_read_metadata_tag(key@) {
            None => r is None,
            Some(t) => r matches Some(x) && x@ == t,
        },
{
    let k = chars_of(key);
    if !valid_key_chars(k.as_slice()) {
        return None;
    }
    let mut v = chars_of("XMP-custom:");
    push_str(&mut v, key);
    Some(string_from(v.as_slice()))
}

/// The tag assignment that deletes a custom metadata value (see [`spec_delete_metadata_tag`]).
pub fn delete_metadata_tag(key: &str) -> (r: Option<String>)
    ensures
        match spec_delete_metadata_tag(key@) {
            None => r is None,
            Some(t) => r matches Some(x) && x@ == t,
        },
{
    let k = chars_of(key);
    if !valid_key_chars(k.as_slice()) {
        return None;
    }
    let mut v = chars_of("XMP-custom:");
    push_str(&mut v, key);
    push_str(&mut v, "=");
    Some(string_from(v.as_slice()))
}

/// A value written under a key that may be read is read back from the same tag.
pub proof fn law_metadata_written_where_read(key: Seq<char>)
    requires
        valid_metadata_key(key),
    ensures
        spec_read_metadata_tag(key) == Some(spec_write_metadata_tag(key)),
{
    assert(sanitized_key(key) =~= key);
}

/// Whatever key a value is written under, its sanitized key may be read and deleted, and is
/// read from the tag it was written to.
pub proof fn law_written_key_readable(key: Seq<char>)
    ensures
        valid_metadata_key(sanitized_key(key)),
        spec_read_metadata_tag(sanitized_key(key)) == Some(spec_write_metadata_tag(key)),
{
    assert(valid_metadata_key(sanitized_key(key)));
}

} // verus!
