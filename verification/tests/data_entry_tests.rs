use scan_code_sync::data::data_entry::{CsvRowError, DataValue, DeviceId, DeviceTime, TimelineEntry};

fn client(n: u16) -> DeviceId {
    DeviceId::ClientId(n)
}

#[test]
fn csv_row_scene_name() {
    let e = TimelineEntry::from_csv_row("3,1700000000000,sceneName,Opening", None).unwrap();
    assert_eq!(e.time, DeviceTime { internal_clock: 1700000000000, device_id: client(3) });
    assert_eq!(e.val, DataValue::SceneName("Opening".to_string()));
}

#[test]
fn csv_row_booleans() {
    let t = TimelineEntry::from_csv_row("1,5,isMaster,True", None).unwrap();
    assert_eq!(t.val, DataValue::IsMaster(true));
    let f = TimelineEntry::from_csv_row("1,5,enableTakeNumber,false", None).unwrap();
    assert_eq!(f.val, DataValue::EnableTakeNumber(false));
    assert_eq!(
        TimelineEntry::from_csv_row("1,5,isDirector,TRUE", None).unwrap_err(),
        CsvRowError::UnknownPair
    );
}

#[test]
fn csv_row_take_number() {
    let e = TimelineEntry::from_csv_row("2,10,takeNumber,12", None).unwrap();
    assert_eq!(e.val, DataValue::TakeNumber(12));
    assert_eq!(
        TimelineEntry::from_csv_row("2,10,takeNumber,twelve", None).unwrap_err(),
        CsvRowError::InvalidTakeNumber
    );
}

#[test]
fn csv_row_free_text_values() {
    let e = TimelineEntry::from_csv_row("2,10,productionName,", None).unwrap();
    assert_eq!(e.val, DataValue::ProductionName(String::new()));
    let o = TimelineEntry::from_csv_row("2,10,operatorName,Cam A", None).unwrap();
    assert_eq!(o.val, DataValue::OperatorName("Cam A".to_string()));
}

#[test]
fn csv_row_rename_needs_scanning_device() {
    let cam = DeviceId::CameraId("Canon EOS".to_string());
    let e = TimelineEntry::from_csv_row("7,99,renameDevice,Wide", Some(&cam)).unwrap();
    assert_eq!(e.val, DataValue::RenameDevice((cam.clone(), "Wide".to_string())));
    assert_eq!(
        TimelineEntry::from_csv_row("7,99,renameDevice,Wide", None).unwrap_err(),
        CsvRowError::UnknownPair
    );
}

#[test]
fn csv_row_errors() {
    assert_eq!(TimelineEntry::from_csv_row("1,2,3", None).unwrap_err(), CsvRowError::WrongColumnCount);
    assert_eq!(TimelineEntry::from_csv_row("1,2,a,b,c", None).unwrap_err(), CsvRowError::WrongColumnCount);
    assert_eq!(TimelineEntry::from_csv_row("1,x,sceneName,a", None).unwrap_err(), CsvRowError::InvalidClock);
    assert_eq!(TimelineEntry::from_csv_row("70000,1,sceneName,a", None).unwrap_err(), CsvRowError::InvalidDeviceId);
    // the clock is read before the device id
    assert_eq!(TimelineEntry::from_csv_row("x,y,sceneName,a", None).unwrap_err(), CsvRowError::InvalidClock);
    assert_eq!(TimelineEntry::from_csv_row("1,2,colour,red", None).unwrap_err(), CsvRowError::UnknownPair);
}

#[test]
fn device_id_text() {
    assert_eq!(client(42).to_string(), "42");
    assert_eq!(DeviceId::CameraId("Sony A7".to_string()).to_string(), "Sony A7");
}
