use std::collections::HashSet;

use scan_code_sync::data::data_entry::{DataValue, DeviceId, DeviceTime, TimelineEntry};
use scan_code_sync::state::{SaveLocationOptions, StateValues, WorkflowHints};

#[test]
fn default_options() {
    let o = SaveLocationOptions::new();
    assert_eq!(o, SaveLocationOptions { popup_open: false, file_type: true, date: true, scene: true, take: true, device: true });
}

#[test]
fn preview_with_all_levels() {
    let o = SaveLocationOptions::new();
    assert_eq!(
        o.path_preview("C:\\Users\\me\\out"),
        "C:/Users/me/out/MEDIA_TYPE/DD-MM-YYYY/SCENE_NAME/TAKE_NUMBER/TAKE_NUMBER/OG_FILE_NAME.file"
    );
}

#[test]
fn preview_follows_the_dialog() {
    let mut o = SaveLocationOptions::new();
    o.file_type = false;
    o.scene = false;
    o.device = false;
    // the scene level goes with the date option
    assert_eq!(o.path_preview("/out"), "/out/DD-MM-YYYY/SCENE_NAME/TAKE_NUMBER/OG_FILE_NAME.file");
    o.date = false;
    o.take = false;
    assert_eq!(o.path_preview(""), "/OG_FILE_NAME.file");
}

#[test]
fn fresh_state_values() {
    let s = StateValues::new();
    assert!(s.input_folder.available() && s.output_folder.available() && s.unsorted_folder.available());
    assert_eq!(s.input_folder.to_string(), "");
    assert_eq!(s.new_files.to_string(), "0 files");
    assert_eq!(s.unsorted_files.to_string(), "0 files");
    assert_eq!(s.timeline.to_string(), "0 timeline entries");
    assert!(s.save_location_options.available());
}

#[test]
fn restore_after_dropped_tasks() {
    let mut s = StateValues::new();
    let _ = s.input_folder.depopulate(1).unwrap();
    let _ = s.new_files.depopulate(2).unwrap();
    let _ = s.save_location_options.depopulate(1).unwrap();
    let live: HashSet<u64> = [2].into_iter().collect();
    s.restore_dropped_variables(&live);
    assert!(s.input_folder.available());
    assert_eq!(s.new_files.used_by(), Some(2));
    // the save location options are not restored
    assert_eq!(s.save_location_options.used_by(), Some(1));
}

#[test]
fn workflow_hints_follow_the_project() {
    let mut s = StateValues::new();
    // nothing yet: import
    assert_eq!(s.workflow_hints(), WorkflowHints { clear_data: false, import: true, process: false, sort: false });

    // new files imported: import more or process
    let _ = s.new_files.depopulate(1).unwrap();
    let _ = s.new_files.populate(Box::new(vec!["a.mp4".to_string()]));
    assert_eq!(s.workflow_hints(), WorkflowHints { clear_data: false, import: true, process: true, sort: false });

    // processed: sort
    let _ = s.new_files.depopulate(1).unwrap();
    let _ = s.new_files.populate(Box::new(vec![]));
    let _ = s.unsorted_files.depopulate(1).unwrap();
    let _ = s.unsorted_files.populate(Box::new(vec!["x.mp4".to_string()]));
    let mut t = s.timeline.depopulate(1).unwrap();
    t.insert_entry(TimelineEntry {
        time: DeviceTime { internal_clock: 1, device_id: DeviceId::ClientId(1) },
        val: DataValue::TakeNumber(1),
    });
    let _ = s.timeline.populate(t);
    assert_eq!(s.workflow_hints(), WorkflowHints { clear_data: false, import: true, process: false, sort: true });

    // sorted: only the old timeline is left, clear it
    let _ = s.unsorted_files.depopulate(1).unwrap();
    let _ = s.unsorted_files.populate(Box::new(vec![]));
    assert_eq!(s.workflow_hints(), WorkflowHints { clear_data: true, import: false, process: false, sort: false });
}
