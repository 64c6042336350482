use scan_code_sync::data::data_entry::{DataValue, DeviceId, DeviceTime};
use scan_code_sync::data::get_barcode::{detect_barcode_1d, detect_barcodes, get_h_row, get_v_col};

const RED: (u8, u8, u8) = (255, 0, 0);
const GREEN: (u8, u8, u8) = (0, 255, 0);
const BLACK: (u8, u8, u8) = (0, 0, 0);
const WHITE: (u8, u8, u8) = (255, 255, 255);

/// A strip of `width` pixels per bar: four red bars, 64 time bits, 16 id bits (white is 1),
/// four green bars, and one trailing black pixel.
fn wide_strip(time: u64, id: u16, width: usize) -> Vec<(u8, u8, u8)> {
    let mut bars = vec![RED; 4];
    for i in 0..64 {
        bars.push(if (time >> i) & 1 == 1 { WHITE } else { BLACK });
    }
    for i in 0..16 {
        bars.push(if (id >> i) & 1 == 1 { WHITE } else { BLACK });
    }
    bars.extend([GREEN; 4]);
    let mut v = vec![];
    for b in bars {
        v.extend(vec![b; width]);
    }
    v.push(BLACK);
    v
}

fn strip(time: u64, id: u16) -> Vec<(u8, u8, u8)> {
    wide_strip(time, id, 1)
}

#[test]
fn decodes_time_and_id() {
    assert_eq!(detect_barcode_1d(&strip(5, 3)), Some((5, 3)));
    assert_eq!(detect_barcode_1d(&wide_strip(5, 3, 3)), Some((5, 3)));
    assert_eq!(detect_barcode_1d(&strip(0xdead_beef_0000_0001, 0x8001)), Some((0xdead_beef_0000_0001, 0x8001)));
}

#[test]
fn no_red_means_no_code() {
    assert_eq!(detect_barcode_1d(&vec![BLACK; 10]), None);
    assert_eq!(detect_barcode_1d(&vec![GREEN; 200]), None);
}

#[test]
fn badly_sized_code_is_refused() {
    let mut v = strip(5, 3);
    v.extend(vec![BLACK; 40]);
    assert_eq!(detect_barcode_1d(&v), None);
}

#[test]
fn rows_and_columns() {
    // 2 rows of 3 pixels
    let data: Vec<u8> = (0..18).collect();
    assert_eq!(get_h_row(1, 3, &data), vec![(9, 10, 11), (12, 13, 14), (15, 16, 17)]);
    assert_eq!(get_v_col(2, 2, 3, &data), vec![(6, 7, 8), (15, 16, 17)]);
    assert_eq!(get_v_col(0, 0, 3, &data), vec![]);
}

#[test]
fn blank_frame_has_no_barcode() {
    let (w, h) = (30u32, 30u32);
    let mut data = vec![0u8; (w * h * 3) as usize];
    let before = data.clone();
    let t = DeviceTime { internal_clock: 1000, device_id: DeviceId::CameraId("cam".to_string()) };
    let found = detect_barcodes(&mut data, w, h, &t);
    assert!(found.is_empty());
    assert_eq!(data, before);
}

#[test]
fn frame_with_horizontal_barcode() {
    // a frame whose rows 15..25 all carry a strip with bars 16 pixels wide
    let s = wide_strip(6, 9, 16);
    let (w, h) = (s.len() as u32, 30u32);
    let mut data = vec![0u8; (w * h * 3) as usize];
    for row in 15..25 {
        for (x, px) in s.iter().enumerate() {
            let i = (row * w as usize + x) * 3;
            data[i] = px.0;
            data[i + 1] = px.1;
            data[i + 2] = px.2;
        }
    }
    let t = DeviceTime { internal_clock: 1000, device_id: DeviceId::CameraId("cam".to_string()) };
    let found = detect_barcodes(&mut data, w, h, &t);
    assert!(found.iter().all(|e| e.val == DataValue::ClockOffset(t.clone())));
    assert!(found.iter().any(|e| e.time == DeviceTime { internal_clock: 6, device_id: DeviceId::ClientId(9) }));
}

#[test]
fn other_colours_read_as_white() {
    let s = strip(5, 3);
    let greyed: Vec<(u8, u8, u8)> = s
        .iter()
        .map(|&p| if p == (0, 0, 0) || p == (255, 0, 0) || p == (0, 255, 0) { p } else { (200, 10, 10) })
        .collect();
    assert_eq!(detect_barcode_1d(&greyed), detect_barcode_1d(&s));
}
