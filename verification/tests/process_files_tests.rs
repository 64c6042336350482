use scan_code_sync::data::data_entry::{DataValue, DeviceId, DeviceTime, TimelineEntry};
use scan_code_sync::data::process_files::{
    entries_from_qr_codes, process_csv_text, process_raw_data, reads_as_text_data, process_timecodes_from_string,
};
use scan_code_sync::data::read_audio::get_encoded_time_from_audio;

/// The texts of the QR codes rqrr reads in a greyscale frame, as the program reads them.
fn scan(data: Vec<u8>, width: u32, height: u32) -> Vec<String> {
    let img = image::GrayImage::from_raw(width, height, data).unwrap();
    let mut prepared = rqrr::PreparedImage::prepare(img);
    prepared.detect_grids().iter().filter_map(|g| g.decode().ok()).map(|(_, content)| content).collect()
}

fn strings(v: &[&str]) -> Vec<String> {
    v.iter().map(|s| s.to_string()).collect()
}

#[test]
fn csv_text_keeps_readable_rows() {
    let text = "1,10,sceneName,A\nbad row\r\n1,11,takeNumber,3\n".to_string();
    let entries = process_csv_text(text, None);
    assert_eq!(entries.len(), 2);
    assert_eq!(entries[0].val, DataValue::SceneName("A".to_string()));
    assert_eq!(entries[1].time, DeviceTime { internal_clock: 11, device_id: DeviceId::ClientId(1) });
    assert_eq!(entries[1].val, DataValue::TakeNumber(3));
    assert!(process_csv_text(String::new(), None).is_empty());
}

#[test]
fn timecodes_take_the_latest_time_and_last_id() {
    let t = process_timecodes_from_string(strings(&["100-3", "200-4", "150-5"]));
    assert_eq!(t, Some(DeviceTime { internal_clock: 200, device_id: DeviceId::ClientId(5) }));
}

#[test]
fn timecodes_that_do_not_read() {
    assert_eq!(process_timecodes_from_string(vec![]), None);
    assert_eq!(process_timecodes_from_string(strings(&["0-1"])), None);
    assert_eq!(process_timecodes_from_string(strings(&["100-3", "abc"])), None);
    assert_eq!(process_timecodes_from_string(strings(&["100-3", "5-70000"])), None);
    assert_eq!(process_timecodes_from_string(strings(&["x-1", "100-3"])), None);
}

#[test]
fn qr_codes_with_csv_win() {
    let cam = DeviceId::CameraId("cam".to_string());
    let frame = DeviceTime { internal_clock: 500, device_id: cam.clone() };
    let codes = strings(&["100-3", "1,10,renameDevice,Wide\n1,11,sceneName,B", "2,20,sceneName,C"]);
    let e = entries_from_qr_codes(codes, &cam, &frame);
    assert_eq!(e.len(), 2);
    assert_eq!(e[0].val, DataValue::RenameDevice((cam.clone(), "Wide".to_string())));
    assert_eq!(e[1].val, DataValue::SceneName("B".to_string()));
}

#[test]
fn qr_timecodes_become_a_clock_offset() {
    let cam = DeviceId::CameraId("cam".to_string());
    let frame = DeviceTime { internal_clock: 500, device_id: cam.clone() };
    let e = entries_from_qr_codes(strings(&["100-3", "90-7"]), &cam, &frame);
    assert_eq!(
        e,
        vec![TimelineEntry {
            time: DeviceTime { internal_clock: 100, device_id: DeviceId::ClientId(7) },
            val: DataValue::ClockOffset(frame.clone()),
        }]
    );
    assert!(entries_from_qr_codes(vec![], &cam, &frame).is_empty());
}

#[test]
fn blank_frame_adds_nothing() {
    let cam = DeviceId::ClientId(1);
    let keep = TimelineEntry { time: DeviceTime { internal_clock: 1, device_id: cam.clone() }, val: DataValue::TakeNumber(1) };
    let mut entries = vec![keep.clone()];
    process_raw_data(scan(vec![255u8; 64 * 48], 64, 48), &mut entries, &cam, 1234);
    assert_eq!(entries, vec![keep]);
}

#[test]
fn audio_gives_no_entries_yet() {
    assert_eq!(get_encoded_time_from_audio("clip.wav", 0).unwrap().len(), 0);
}

/// A QR code (version 1, level L, mask 0) holding the text `100-3`.
const QR_100_3: [&str; 21] = [
        "#######..#.##.#######",
        "#.....#..###..#.....#",
        "#.###.#.##.##.#.###.#",
        "#.###.#..#.#..#.###.#",
        "#.###.#...#.#.#.###.#",
        "#.....#.....#.#.....#",
        "#######.#.#.#.#######",
        "........##.##........",
        "###.########.##...#..",
        "#.#..#.#..#...#..#..#",
        ".##.####..#.#...#.#.#",
        ".#.......#....#..#...",
        "..#.#.#####.#.#.##..#",
        "........##.#.#.#.#..#",
        "#######.##.#.###..#.#",
        "#.....#.#..###.###...",
        "#.###.#.##.#.###...##",
        "#.###.#..##...##..##.",
        "#.###.#.##..#...###.#",
        "#.....#.##....#.##.#.",
        "#######.#...#.#.##.##",
];

/// The code as an 8-bit greyscale frame: four pixels per module and a quiet zone of four
/// modules around it.
fn qr_frame(rows: &[&str]) -> (Vec<u8>, u32) {
    let scale = 4;
    let n = rows.len() + 8;
    let side = n * scale;
    let mut data = vec![255u8; side * side];
    for (r, row) in rows.iter().enumerate() {
        for (c, m) in row.chars().enumerate() {
            if m == '#' {
                for dy in 0..scale {
                    for dx in 0..scale {
                        data[((r + 4) * scale + dy) * side + (c + 4) * scale + dx] = 0;
                    }
                }
            }
        }
    }
    (data, side as u32)
}

#[test]
fn filmed_timecode_becomes_a_clock_offset() {
    let cam = DeviceId::CameraId("cam".to_string());
    let (data, side) = qr_frame(&QR_100_3);
    let mut entries = vec![];
    process_raw_data(scan(data, side, side), &mut entries, &cam, 1234);
    assert_eq!(
        entries,
        vec![TimelineEntry {
            time: DeviceTime { internal_clock: 100, device_id: DeviceId::ClientId(3) },
            val: DataValue::ClockOffset(DeviceTime { internal_clock: 1234, device_id: cam.clone() }),
        }]
    );
}

#[test]
fn codes_of_a_frame_are_appended() {
    let cam = DeviceId::ClientId(4);
    let keep = TimelineEntry { time: DeviceTime { internal_clock: 1, device_id: cam.clone() }, val: DataValue::TakeNumber(1) };
    let mut entries = vec![keep.clone()];
    process_raw_data(strings(&["100-3"]), &mut entries, &cam, 77);
    assert_eq!(
        entries,
        vec![
            keep,
            TimelineEntry {
                time: DeviceTime { internal_clock: 100, device_id: DeviceId::ClientId(3) },
                val: DataValue::ClockOffset(DeviceTime { internal_clock: 77, device_id: cam.clone() }),
            },
        ]
    );
}

#[test]
fn text_data_extensions() {
    assert!(reads_as_text_data("txt"));
    assert!(reads_as_text_data("csv"));
    assert!(!reads_as_text_data(".csv"));
    assert!(!reads_as_text_data("mp4"));
    assert!(!reads_as_text_data("CSV"));
}
