use scan_code_sync::data::file_metadata::{custom_tag_text, delete_metadata_tag, read_metadata_tag, write_metadata_tag};
use scan_code_sync::data::data_entry::DeviceId;
use scan_code_sync::data::file_metadata::{
    creation_time_cut_fits, creation_time_from_stem, creation_time_ms, device_id_from_stem, device_id_from_tags,
    exif_datetime_to_ms, normalize_tag_value, subsec_millis, unsorted_file_name, DateTimeError,
    TagValue,
};
use scan_code_sync::data::timeline::sorted_file_name;
use scan_code_sync::text::string_from;

#[test]
fn processed_name_format() {
    let name = unsorted_file_name(&DeviceId::ClientId(3), 1700000000123, "clip", "mp4");
    assert_eq!(name, "DEVICE_ID3TIMESTAMP1700000000123-clip.mp4");
    let cam = unsorted_file_name(&DeviceId::CameraId("Sony A7".to_string()), 5, "IMG-1", "jpg");
    assert_eq!(cam, "DEVICE_IDSony A7TIMESTAMP5-IMG-1.jpg");
}

#[test]
fn processed_name_reads_back() {
    let stem = "DEVICE_ID3TIMESTAMP1700000000123-clip";
    assert_eq!(creation_time_from_stem(stem), Some(1700000000123));
    assert_eq!(device_id_from_stem(stem), Some(DeviceId::ClientId(3)));
    let cam = "DEVICE_IDSony A7TIMESTAMP5-IMG-1";
    assert_eq!(creation_time_from_stem(cam), Some(5));
    assert_eq!(device_id_from_stem(cam), Some(DeviceId::CameraId("Sony A7".to_string())));
    // sorting restores the original name
    assert_eq!(sorted_file_name("DEVICE_IDSony A7TIMESTAMP5-IMG-1.jpg"), "IMG-1.jpg");
}

#[test]
fn stems_without_markers() {
    assert_eq!(creation_time_from_stem("IMG_0001"), None);
    assert_eq!(creation_time_from_stem("xTIMESTAMP12"), None);
    assert_eq!(creation_time_from_stem("xTIMESTAMPabc-1"), None);
    assert_eq!(device_id_from_stem("IMG_0001"), None);
    assert_eq!(device_id_from_stem("DEVICE_ID12"), None);
    assert_eq!(device_id_from_stem("DEVICE_ID  7 TIMESTAMP1-a"), Some(DeviceId::ClientId(7)));
    assert_eq!(device_id_from_stem("DEVICE_ID 42x TIMESTAMP1-a"), Some(DeviceId::CameraId("42x".to_string())));
    assert_eq!(device_id_from_stem("DEVICE_ID70000TIMESTAMP1-a"), Some(DeviceId::CameraId("70000".to_string())));
}

#[test]
fn tag_values_normalized() {
    let c: Vec<char> = "  EOS \t R5\n mark  II ".chars().collect();
    assert_eq!(string_from(&normalize_tag_value(&c)), "EOS R5 mark II");
    let e: Vec<char> = "   ".chars().collect();
    assert_eq!(string_from(&normalize_tag_value(&e)), "");
}

#[test]
fn camera_name_from_tags() {
    let tags = vec![
        TagValue::Text("Canon".to_string()),
        TagValue::Null,
        TagValue::Text(String::new()),
        TagValue::Text(" EOS  R5 ".to_string()),
        TagValue::Other("1234".to_string()),
        TagValue::Text("a/b".to_string()),
        TagValue::Text("   ".to_string()),
    ];
    assert_eq!(device_id_from_tags(&tags), DeviceId::CameraId("Canon-EOS R5-1234-a_b".to_string()));
    assert_eq!(device_id_from_tags(&vec![]), DeviceId::CameraId(String::new()));
    assert_eq!(device_id_from_tags(&vec![TagValue::Text("con".to_string())]), DeviceId::CameraId("con_".to_string()));
}

#[test]
fn exif_dates() {
    assert_eq!(exif_datetime_to_ms("2023:01:15 10:30:00"), Ok(1673778600000));
    assert_eq!(exif_datetime_to_ms("2023-01-15T10:30:00Z"), Ok(1673778600000));
    assert_eq!(exif_datetime_to_ms("2023:01:15 10:30:00.123+05:30"), Ok(1673778600000));
    assert_eq!(exif_datetime_to_ms("2023:01:15 10:30:00+05:30"), Ok(1673778600000));
    assert_eq!(exif_datetime_to_ms(" 2024:02:29 23:59:59 "), Ok(1709251199000));
    assert_eq!(exif_datetime_to_ms("1970:01:01 00:00:00"), Ok(0));
    assert_eq!(exif_datetime_to_ms("1969:12:31 23:59:59"), Ok((-1000i64) as u64));
}

#[test]
fn exif_date_errors() {
    assert_eq!(exif_datetime_to_ms("2023:01:15"), Err(DateTimeError::MissingTime));
    assert_eq!(exif_datetime_to_ms("2023:01:x5 10:30:00"), Err(DateTimeError::InvalidDateComponent));
    assert_eq!(exif_datetime_to_ms("2023:01:15 10:30:aa"), Err(DateTimeError::InvalidTimeComponent));
    assert_eq!(exif_datetime_to_ms("2023:01 10:30:00"), Err(DateTimeError::WrongDateComponentCount));
    assert_eq!(exif_datetime_to_ms("2023:01:15 10:30"), Err(DateTimeError::WrongTimeComponentCount));
    assert_eq!(exif_datetime_to_ms("0000:00:00 00:00:00"), Err(DateTimeError::PlaceholderZeroDate));
    assert_eq!(exif_datetime_to_ms("2023:02:30 10:00:00"), Err(DateTimeError::InvalidDateTime));
    assert_eq!(exif_datetime_to_ms("2023:01:15 24:00:00"), Err(DateTimeError::InvalidDateTime));
}

#[test]
fn subsecond_milliseconds() {
    assert_eq!(subsec_millis("907"), 907);
    assert_eq!(subsec_millis("91"), 910);
    assert_eq!(subsec_millis("9"), 900);
    assert_eq!(subsec_millis("1234"), 123);
    assert_eq!(subsec_millis(""), 0);
    assert_eq!(subsec_millis("ab"), 0);
    assert_eq!(subsec_millis("+5"), 50);
}

fn s(x: &str) -> Option<String> {
    Some(x.to_string())
}

#[test]
fn creation_time_prefers_the_name() {
    let stem = "DEVICE_ID3TIMESTAMP1700000000123-clip";
    let subsec = vec![s("2023:01:15 10:30:00")];
    assert_eq!(creation_time_ms(Some(stem), &subsec, &vec![], &vec![]), Some(1700000000123));
}

#[test]
fn creation_time_from_tags_in_order() {
    let subsec = vec![None, s("garbage"), s("2023:01:15 10:30:00.500")];
    assert_eq!(creation_time_ms(Some("IMG_0001"), &subsec, &vec![], &vec![]), Some(1673778600000));

    let pairs = vec![(s("bad"), s("5")), (s("2023:01:15 10:30:00"), s("91"))];
    assert_eq!(creation_time_ms(None, &vec![None], &pairs, &vec![s("2020:06:01 12:00:00")]), Some(1673778600910));

    let no_sub = vec![(s("2023:01:15 10:30:00"), None)];
    assert_eq!(creation_time_ms(None, &vec![], &no_sub, &vec![]), Some(1673778600000));

    let video = vec![None, s("2020:06:01 12:00:00")];
    assert_eq!(creation_time_ms(None, &vec![], &vec![(None, s("1"))], &video), Some(1591012800000));

    assert_eq!(creation_time_ms(Some("IMG"), &vec![s("x")], &vec![(s("y"), None)], &vec![None]), None);
}

#[test]
fn custom_metadata_tags() {
    assert_eq!(write_metadata_tag("OriginalFilePath"), "XMP-custom:OriginalFilePath");
    assert_eq!(write_metadata_tag("a b;c-d_é"), "XMP-custom:a_b_c_d_é");
    // a written key can always be read back
    assert_eq!(write_metadata_tag("a-b"), "XMP-custom:a_b");
    assert_eq!(read_metadata_tag("a_b"), Some("XMP-custom:a_b".to_string()));
    assert_eq!(read_metadata_tag("OriginalFilePath"), Some("XMP-custom:OriginalFilePath".to_string()));
    assert_eq!(read_metadata_tag("take_2"), Some("XMP-custom:take_2".to_string()));
    assert_eq!(read_metadata_tag("a-b"), None);
    assert_eq!(read_metadata_tag("x=1"), None);
    assert_eq!(delete_metadata_tag("Scene"), Some("XMP-custom:Scene=".to_string()));
    assert_eq!(delete_metadata_tag("a b"), None);
    // a key that may be read is written under the same tag
    assert_eq!(read_metadata_tag("take_2"), Some(write_metadata_tag("take_2")));
}

#[test]
fn sub_second_cut_between_characters() {
    // "9é" is three bytes, "éé" cuts the second character in half
    let fits = vec![(s("2023:01:15 10:30:00"), s("9é"))];
    assert!(creation_time_cut_fits(None, &vec![], &fits));
    let cut = vec![(s("2023:01:15 10:30:00"), s("éé"))];
    assert!(!creation_time_cut_fits(None, &vec![], &cut));
    // only the pair that is read matters
    let unused = vec![(s("bad"), s("éé")), (s("2023:01:15 10:30:00"), s("5"))];
    assert!(creation_time_cut_fits(None, &vec![], &unused));
    assert!(creation_time_cut_fits(Some("DEVICE_ID1TIMESTAMP5-x"), &vec![], &cut));
    assert!(creation_time_cut_fits(None, &vec![s("2023:01:15 10:30:00")], &cut));
}

#[test]
fn calendar_dates() {
    assert_eq!(exif_datetime_to_ms("2000:02:29 00:00:00"), Ok(951782400000));
    assert_eq!(exif_datetime_to_ms("2100:03:01 00:00:00"), Ok(4107542400000));
    assert_eq!(exif_datetime_to_ms("1900:02:29 00:00:00"), Err(DateTimeError::InvalidDateTime));
    assert_eq!(exif_datetime_to_ms("2023:04:31 00:00:00"), Err(DateTimeError::InvalidDateTime));
    assert_eq!(exif_datetime_to_ms("2023:04:30 23:59:60"), Err(DateTimeError::InvalidDateTime));
}

#[test]
fn custom_tag_values() {
    assert_eq!(custom_tag_text(TagValue::Null), None);
    assert_eq!(custom_tag_text(TagValue::Text("  \t".to_string())), None);
    assert_eq!(custom_tag_text(TagValue::Text(String::new())), None);
    assert_eq!(custom_tag_text(TagValue::Text(" take 2 ".to_string())), Some(" take 2 ".to_string()));
    assert_eq!(custom_tag_text(TagValue::Other("42".to_string())), Some("42".to_string()));
}
