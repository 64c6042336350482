use vstd::prelude::*;
use crate::data::data_entry::{
    option_device_view, spec_from_csv_row, timeline_entry_from_chars, DataValue, DataValueView,
    DeviceId, DeviceIdView, DeviceTime, DeviceTimeView, TimelineEntry, TimelineEntryView,
};
use crate::text::{string_views, chars_eq_str, chars_of, find, find_from, lines, lines_of, parse_u16, parse_u64, parse_unsigned, split_once, split_once_chars};

verus! {

/// The entries read from the rows of a text: rows that do not parse are skipped.
pub open spec fn csv_entries(rows: Seq<Seq<char>>, scan: Option<DeviceIdView>) -> Seq<TimelineEntryView>
    decreases rows.len(),
{
    if rows.len() == 0 {
        seq![]
    } else {
        let prev = csv_entries(rows.drop_last(), scan);
        match spec_from_csv_row(rows.last(), scan) {
            Ok(e) => prev.push(e),
            Err(_) => prev,
        }
    }
}

/// Reads every line of a text as a comma separated row (see
/// [`crate::data::data_entry::spec_from_csv_row`]) and keeps the rows that parse.
pub fn process_csv_text(text: String, recording_device_id: Option<&DeviceId>) -> (r: Vec<TimelineEntry>)
    ensures
        r@.map_values(|e: TimelineEntry| e@) == csv_entries(lines(text@), option_device_view(recording_device_id)),
{
    let chars = chars_of(text.as_str());
    let rows = lines_of(chars.as_slice());
    let ghost scan = option_device_view(recording_device_id);
    let ghost ls = lines(text@);
    let mut r: Vec<TimelineEntry> = Vec::new();
    let mut i: usize = 0;
    while i < rows.len()
        invariant
            rows@.len() == ls.len(),
            forall|j: int| 0 <= j < rows@.len() ==> #[trigger] rows@[j]@ == ls[j],
            scan == option_device_view(recording_device_id),
            i <= rows@.len(),
            r@.map_values(|e: TimelineEntry| e@) == csv_entries(ls.take(i as int), scan),
        decreases rows@.len() - i,
    {
        assert(ls.take(i as int + 1).drop_last() =~= ls.take(i as int));
        let ghost before = r@.map_values(|e: TimelineEntry| e@);
        match timeline_entry_from_chars(rows[i].as_slice(), recording_device_id) {
            Ok(e) => {
                r.push(e);
                assert(r@.map_values(|e: TimelineEntry| e@) =~= before.push(e@));
            },
            Err(_) => {},
        }
        i += 1;
    }
    assert(ls.take(rows@.len() as int) =~= ls);
    r
}

/// Folds timecode strings `time-id`: the largest time and the id of the last code, or `None`
/// as soon as one code does not have that form. No codes give `(0, 0)`.
pub open spec fn timecode_fold(codes: Seq<Seq<char>>) -> Option<(u64, u16)>
    decreases codes.len(),
{
    if codes.len() == 0 {
        Some((0, 0))
    } else {
        match timecode_fold(codes.drop_last()) {
            None => None,
            Some((m, id)) => match split_once(codes.last(), "-"@) {
                None => None,
                Some((a, b)) => match parse_unsigned(a, u64::MAX as int) {
                    None => None,
                    Some(t) => match parse_unsigned(b, u16::MAX as int) {
                        None => None,
                        Some(i) => Some((if t >= m { t as u64 } else { m }, i as u16)),
                    },
                },
            },
        }
    }
}

/// The clock reading that a set of timecode QR codes shows: the largest time, with the id of
/// the last code; nothing when a code is malformed or the largest time is 0.
pub open spec fn spec_process_timecodes(codes: Seq<Seq<char>>) -> Option<DeviceTimeView> {
    match timecode_fold(codes) {
        Some((m, id)) => if m != 0 {
            Some(DeviceTimeView { internal_clock: m, device_id: DeviceIdView::ClientId(id) })
        } else {
            None
        },
        None => None,
    }
}

/// Reads timecode QR codes of the form `time-id` (see [`spec_process_timecodes`]).
pub fn process_timecodes_from_string(codes: Vec<String>) -> (r: Option<DeviceTime>)
    ensures
        match spec_process_timecodes(string_views(codes@)) {
            Some(t) => r matches Some(x) && x@ == t,
            None => r is None,
        },
{
    let ghost cs = string_views(codes@);
    let dash = chars_of("-");
    let mut max_time: u64 = 0;
    let mut id: u16 = 0;
    let mut i: usize = 0;
    while i < codes.len()
        invariant
            cs == string_views(codes@),
            dash@ == "-"@,
            i <= codes@.len(),
            timecode_fold(cs.take(i as int)) == Some((max_time, id)),
        decreases codes@.len() - i,
    {
        assert(cs.take(i as int + 1).drop_last() =~= cs.take(i as int));
        let c = chars_of(codes[i].as_str());
        let (a, b) = match split_once_chars(c.as_slice(), dash.as_slice()) {
            Some(p) => p,
            None => {
                proof { lemma_fold_fails(cs, i as int); }
                return None;
            },
        };
        let t = match parse_u64(a.as_slice()) {
            Some(t) => t,
            None => {
                proof { lemma_fold_fails(cs, i as int); }
                return None;
            },
        };
        let n = match parse_u16(b.as_slice()) {
            Some(n) => n,
            None => {
                proof { lemma_fold_fails(cs, i as int); }
                return None;
            },
        };
        max_time = if t >= max_time { t } else { max_time };
        id = n;
        i += 1;
    }
    assert(cs.take(codes@.len() as int) =~= cs);
    if max_time != 0 {
        Some(DeviceTime { internal_clock: max_time, device_id: DeviceId::ClientId(id) })
    } else {
        None
    }
}

/// Once a prefix of the codes fails, every longer prefix fails too.
proof fn lemma_fold_fails(cs: Seq<Seq<char>>, i: int)
    requires
        0 <= i < cs.len(),
        timecode_fold(cs.take(i + 1)) is None,
    ensures
        timecode_fold(cs) is None,
    decreases cs.len() - i,
{
    if i + 1 == cs.len() {
        assert(cs.take(i + 1) =~= cs);
    } else {
        assert(cs.take(i + 2).drop_last() =~= cs.take(i + 1));
        lemma_fold_fails(cs, i + 1);
    }
}


/// Whether a text holds a comma.
pub open spec fn has_comma(s: Seq<char>) -> bool {
    find_from(s, ","@, 0) is Some
}

/// Index of the first code that holds a comma, if any.
pub open spec fn first_csv_code(codes: Seq<Seq<char>>, i: int) -> Option<int>
    decreases codes.len() - i,
{
    if i < 0 || i >= codes.len() {
        None
    } else if has_comma(codes[i]) {
        Some(i)
    } else {
        first_csv_code(codes, i + 1)
    }
}

/// The entries a frame's QR codes give: the first code holding a comma is read as comma
/// separated rows recorded by the filming camera; without such a code, the codes are read as
/// timecodes, and a valid timecode is paired with the frame's own clock reading.
pub open spec fn spec_qr_entries(codes: Seq<Seq<char>>, camera_id: DeviceIdView, frame_time: DeviceTimeView) -> Seq<TimelineEntryView> {
    match first_csv_code(codes, 0) {
        Some(k) => csv_entries(lines(codes[k]), Some(camera_id)),
        None => match spec_process_timecodes(codes) {
            Some(t) => seq![TimelineEntryView { time: t, val: DataValueView::ClockOffset(frame_time) }],
            None => seq![],
        },
    }
}

/// Turns the decoded QR codes of one frame into timeline entries (see [`spec_qr_entries`]).
pub fn entries_from_qr_codes(codes: Vec<String>, camera_id: &DeviceId, frame_time: &DeviceTime) -> (r: Vec<TimelineEntry>)
    ensures
        r@.map_values(|e: TimelineEntry| e@) == spec_qr_entries(string_views(codes@), camera_id@, frame_time@),
{
    let ghost cs = string_views(codes@);
    let comma = chars_of(",");
    let mut i: usize = 0;
    while i < codes.len()
        invariant
            cs == string_views(codes@),
            comma@ == ","@,
            i <= codes@.len(),
            first_csv_code(cs, 0) == first_csv_code(cs, i as int),
        decreases codes@.len() - i,
    {
        let c = chars_of(codes[i].as_str());
        if find(c.as_slice(), comma.as_slice()).is_some() {
            let text = codes[i].clone();
            return process_csv_text(text, Some(camera_id));
        }
        i += 1;
    }
    let mut r: Vec<TimelineEntry> = Vec::new();
    if let Some(scanned_time) = process_timecodes_from_string(codes) {
        r.push(TimelineEntry { time: scanned_time, val: DataValue::ClockOffset(frame_time.clone()) });
        assert(r@.map_values(|e: TimelineEntry| e@) =~= spec_qr_entries(cs, camera_id@, frame_time@));
    } else {
        assert(r@.map_values(|e: TimelineEntry| e@) =~= spec_qr_entries(cs, camera_id@, frame_time@));
    }
    r
}

/// Whether a file with this extension holds metadata as comma-separated text (a `txt` or `csv`
/// file) rather than media.
pub fn reads_as_text_data(extension: &str) -> (r: bool)
    ensures
        r == (extension@ == "txt"@ || extension@ == "csv"@),
{
    let c = chars_of(extension);
    chars_eq_str(c.as_slice(), "txt") || chars_eq_str(c.as_slice(), "csv")
}

/// Takes the QR codes read from one frame, filmed by `camera_id` at clock reading
/// `frame_clock`, into account: appends the entries they give (see [`spec_qr_entries`]).
pub fn process_raw_data(codes: Vec<String>, entries: &mut Vec<TimelineEntry>, camera_id: &DeviceId, frame_clock: u64)
    ensures
        final(entries)@.map_values(|e: TimelineEntry| e@) == old(entries)@.map_values(|e: TimelineEntry| e@)
            + spec_qr_entries(
            string_views(codes@),
            camera_id@,
            DeviceTimeView { internal_clock: frame_clock, device_id: camera_id@ },
        ),
{
    let time = DeviceTime { device_id: camera_id.clone(), internal_clock: frame_clock };
    let mut found = entries_from_qr_codes(codes, camera_id, &time);
    let ghost before = entries@.map_values(|e: TimelineEntry| e@);
    let ghost add = found@.map_values(|e: TimelineEntry| e@);
    entries.append(&mut found);
    assert(entries@.map_values(|e: TimelineEntry| e@) =~= before + add);
}

} // verus!
