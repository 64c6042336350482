use scan_code_sync::data::data_entry::{DataValue, DeviceId, DeviceTime, TimelineEntry};
use scan_code_sync::data::timeline::{sorted_file_name, SortState, Timeline};
use scan_code_sync::state::SaveLocationOptions;

fn at(clock: u64, id: DeviceId) -> DeviceTime {
    DeviceTime { internal_clock: clock, device_id: id }
}

fn offset(a: DeviceTime, b: DeviceTime) -> TimelineEntry {
    TimelineEntry { time: a, val: DataValue::ClockOffset(b) }
}

fn chain(t: &Timeline, id: &DeviceId) -> Vec<u64> {
    t.time_chains.iter().find(|(d, _)| d == id).map(|(_, s)| s.iter().copied().collect()).unwrap_or_default()
}

#[test]
fn new_timeline_is_empty() {
    let t = Timeline::new();
    assert!(t.entries.is_empty() && t.metadata.is_empty() && t.time_chains.is_empty() && t.chain_connections.is_empty());
}

#[test]
fn entries_are_a_set() {
    let mut t = Timeline::new();
    let e = TimelineEntry { time: at(1, DeviceId::ClientId(1)), val: DataValue::SceneName("A".to_string()) };
    t.insert_entry(e.clone());
    t.insert_entry(e.clone());
    assert_eq!(t.entries.len(), 1);
}

#[test]
fn sorting_splits_offsets_from_metadata() {
    let cam = DeviceId::CameraId("cam".to_string());
    let phone = DeviceId::ClientId(1);
    let mut t = Timeline::new();
    t.insert_entry(offset(at(100, phone.clone()), at(5000, cam.clone())));
    t.insert_entry(offset(at(200, phone.clone()), at(5100, cam.clone())));
    let scene = TimelineEntry { time: at(150, phone.clone()), val: DataValue::SceneName("A".to_string()) };
    t.insert_entry(scene.clone());
    t.sort_entries();
    assert!(t.entries.is_empty());
    assert_eq!(t.metadata, vec![scene]);
    assert_eq!(chain(&t, &phone), vec![100, 200]);
    assert_eq!(chain(&t, &cam), vec![5000, 5100]);
    assert_eq!(t.chain_connections.len(), 2);
    assert!(t.chain_connections.contains(&(at(100, phone.clone()), at(5000, cam.clone()))));
    assert!(t.chain_connections.contains(&(at(200, phone.clone()), at(5100, cam.clone()))));
}

#[test]
fn sorting_twice_changes_nothing() {
    let mut t = Timeline::new();
    t.insert_entry(offset(at(1, DeviceId::ClientId(2)), at(9, DeviceId::ClientId(3))));
    t.insert_entry(TimelineEntry { time: at(4, DeviceId::ClientId(2)), val: DataValue::TakeNumber(2) });
    t.sort_entries();
    let (m, c, ch) = (t.metadata.clone(), t.chain_connections.clone(), t.time_chains.clone());
    t.sort_entries();
    assert_eq!(t.metadata, m);
    assert_eq!(t.chain_connections, c);
    assert_eq!(t.time_chains, ch);
}

#[test]
fn sorting_in_batches_matches_sorting_once() {
    let a = offset(at(1, DeviceId::ClientId(2)), at(9, DeviceId::ClientId(3)));
    let b = offset(at(5, DeviceId::ClientId(2)), at(19, DeviceId::ClientId(4)));
    let m = TimelineEntry { time: at(4, DeviceId::ClientId(2)), val: DataValue::TakeNumber(2) };

    let mut once = Timeline::new();
    for e in [a.clone(), b.clone(), m.clone()] {
        once.insert_entry(e);
    }
    once.sort_entries();

    let mut batches = Timeline::new();
    batches.insert_entry(a);
    batches.sort_entries();
    batches.insert_entry(b);
    batches.insert_entry(m);
    batches.sort_entries();

    for id in [DeviceId::ClientId(2), DeviceId::ClientId(3), DeviceId::ClientId(4)] {
        assert_eq!(chain(&once, &id), chain(&batches, &id));
    }
    assert_eq!(once.metadata, batches.metadata);
    assert_eq!(once.chain_connections.len(), batches.chain_connections.len());
    assert!(once.chain_connections.iter().all(|p| batches.chain_connections.contains(p)));
}

#[test]
fn sort_state_starts_undefined() {
    let s = SortState::new();
    assert_eq!(s.current_production, "undefined production");
    assert_eq!(s.current_scene, "scene undefined");
    assert_eq!(s.scene_number, 0);
    assert!(!s.scene_enabled && !s.take_enabled);
    assert_eq!(s.current_take, 0);
    assert!(s.camera_renames.is_empty());
}

#[test]
fn scenes_are_counted_on_change() {
    let mut s = SortState::new();
    let o = SaveLocationOptions::new();
    assert_eq!(s.scene_folder(&o), None);
    s.apply(&DataValue::EnableSceneName(true));
    s.apply(&DataValue::SceneName("Intro".to_string()));
    s.apply(&DataValue::SceneName("Intro".to_string()));
    assert_eq!(s.scene_number, 1);
    assert_eq!(s.scene_folder(&o), Some("001 Scene - Intro".to_string()));
    s.apply(&DataValue::SceneName("Chase/Car".to_string()));
    assert_eq!(s.scene_folder(&o), Some("002 Scene - Chase_Car".to_string()));
    let mut no_scene = o;
    no_scene.scene = false;
    assert_eq!(s.scene_folder(&no_scene), None);
}

#[test]
fn takes_and_devices() {
    let mut s = SortState::new();
    let o = SaveLocationOptions::new();
    s.apply(&DataValue::TakeNumber(7));
    assert_eq!(s.take_folder(&o), None);
    s.apply(&DataValue::EnableTakeNumber(true));
    assert_eq!(s.take_folder(&o), Some("Take 7".to_string()));
    assert_eq!(s.device_folder(&DeviceId::ClientId(5)), "Device id - 5");
    s.apply(&DataValue::RenameDevice((DeviceId::ClientId(5), "Wide".to_string())));
    assert_eq!(s.device_folder(&DeviceId::ClientId(5)), "Device id - Wide");
    s.apply(&DataValue::RenameDevice((DeviceId::ClientId(5), "Close".to_string())));
    assert_eq!(s.device_folder(&DeviceId::ClientId(5)), "Device id - Close");
    assert_eq!(s.device_folder(&DeviceId::CameraId("cam".to_string())), "Device id - cam");
    s.apply(&DataValue::ProductionName("Film".to_string()));
    assert_eq!(s.current_production, "Film");
}

#[test]
fn sorted_names() {
    assert_eq!(sorted_file_name("DEVICE_ID3TIMESTAMP17-clip.mp4"), "clip.mp4");
    assert_eq!(sorted_file_name("holiday.jpg"), "holiday.jpg");
    assert_eq!(sorted_file_name("TIMESTAMP12.jpg"), "TIMESTAMP12.jpg");
}

#[test]
fn media_folder_levels() {
    let mut s = SortState::new();
    let mut o = SaveLocationOptions::new();
    let strs = |v: &[&str]| v.iter().map(|x| x.to_string()).collect::<Vec<String>>();
    assert_eq!(
        s.media_folders(&o, Some("01-02-2024 UTC".to_string()), Some("video".to_string()), None),
        strs(&["undefined production", "01-02-2024 UTC", "video"])
    );
    s.apply(&DataValue::ProductionName("Film".to_string()));
    s.apply(&DataValue::EnableSceneName(true));
    s.apply(&DataValue::SceneName("Intro".to_string()));
    s.apply(&DataValue::EnableTakeNumber(true));
    s.apply(&DataValue::TakeNumber(3));
    s.apply(&DataValue::RenameDevice((DeviceId::ClientId(2), "Wide".to_string())));
    assert_eq!(
        s.media_folders(&o, None, Some("image".to_string()), Some(&DeviceId::ClientId(2))),
        strs(&["Film", "image", "001 Scene - Intro", "Take 3", "Device id - Wide"])
    );
    o.date = false;
    o.file_type = false;
    o.take = false;
    assert_eq!(
        s.media_folders(&o, Some("d".to_string()), Some("t".to_string()), Some(&DeviceId::CameraId("cam".to_string()))),
        strs(&["Film", "001 Scene - Intro", "Device id - cam"])
    );
}

#[test]
fn well_formed_timelines() {
    let mut t = Timeline::new();
    assert!(t.well_formed());
    let e = TimelineEntry { time: DeviceTime { internal_clock: 1, device_id: DeviceId::ClientId(1) }, val: DataValue::TakeNumber(2) };
    t.insert_entry(e.clone());
    t.insert_entry(e.clone());
    assert_eq!(t.entries.len(), 1);
    assert!(t.well_formed());
    t.entries.push(e);
    assert!(!t.well_formed());
}
