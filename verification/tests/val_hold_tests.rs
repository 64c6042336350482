use std::collections::HashSet;

use scan_code_sync::data::timeline::Timeline;
use scan_code_sync::state::SaveLocationOptions;
use scan_code_sync::val_hold::{PlaceholderDisplayValue, ValueHolder, ValueHolderError};

#[test]
fn take_and_put_back() {
    let mut h = ValueHolder::Value(Box::new("in".to_string()));
    assert!(h.available());
    assert_eq!(h.used_by(), None);
    let v = h.depopulate(7).unwrap();
    assert_eq!(*v, "in");
    assert!(!h.available());
    assert_eq!(h.used_by(), Some(7));
    assert_eq!(h.to_string(), "in");
    assert_eq!(h.populate(Box::new("out".to_string())), Ok(()));
    assert!(h.available());
    assert_eq!(h.to_string(), "out");
}

#[test]
fn taken_value_is_refused() {
    let mut h = ValueHolder::Value(Box::new(1u8.to_string()));
    let _ = h.depopulate(3).unwrap();
    assert_eq!(h.depopulate(4).unwrap_err(), ValueHolderError::InUse(3));
    assert_eq!(h.used_by(), Some(3));
}

#[test]
fn result_is_put_back_once() {
    let mut h = ValueHolder::Value(Box::new("a".to_string()));
    let _ = h.depopulate(1).unwrap();
    assert_eq!(h.populate(Box::new("b".to_string())), Ok(()));
    assert_eq!(h.populate(Box::new("c".to_string())), Err(ValueHolderError::AlreadyPopulated));
    assert_eq!(h.to_string(), "b");
}

#[test]
fn dropped_task_value_is_restored() {
    let mut h = ValueHolder::Value(Box::new("a".to_string()));
    let _ = h.depopulate(9).unwrap();
    let live: HashSet<u64> = [9].into_iter().collect();
    h.restore_if_dropped(&live);
    assert_eq!(h.used_by(), Some(9));
    h.restore_if_dropped(&HashSet::new());
    assert!(h.available());
    assert_eq!(h.to_string(), "a");
    // restoring an available value changes nothing
    h.restore_if_dropped(&HashSet::new());
    assert_eq!(h.to_string(), "a");
}

#[test]
fn holder_label() {
    let mut h = ValueHolder::Value(Box::new(vec!["x".to_string()]));
    assert_eq!(h.used_by_string(), "");
    let _ = h.depopulate(1000).unwrap();
    assert_eq!(h.used_by_string(), "1");
    let mut g = ValueHolder::Value(Box::new(String::new()));
    let _ = g.depopulate(998).unwrap();
    assert_eq!(g.used_by_string(), "998");
}

#[test]
fn placeholders() {
    assert_eq!("/tmp/in".to_string().placeholder_text(), "/tmp/in");
    assert_eq!(Vec::<String>::new().placeholder_text(), "0 files");
    assert_eq!(vec!["a".to_string(), "b".to_string()].placeholder_text(), "2 files");
    assert_eq!(Timeline::new().placeholder_text(), "0 timeline entries");
    let o = SaveLocationOptions::new();
    assert_eq!(o.placeholder_text(), format!("{:#?}", o));
    assert_eq!(
        o.placeholder_text(),
        "SaveLocationOptions {\n    popup_open: false,\n    file_type: true,\n    date: true,\n    scene: true,\n    take: true,\n    device: true,\n}"
    );
}
