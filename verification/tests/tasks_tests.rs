use scan_code_sync::tasks::import_media_task::import_relative_path;
use scan_code_sync::tasks::init_task::StateInitValues;
use scan_code_sync::tasks::install_magick::{
    install_candidates, install_location, path_with_install_dir, reports_already_installed,
};
use scan_code_sync::tasks::update_input_file_list_task::UpdateNewFileListValues;
use scan_code_sync::tasks::update_unsorted_file_list::UpdateUnsortedFileListValues;
use scan_code_sync::val_hold::{ValueHolder, ValueHolderError};

fn holder(s: &str) -> ValueHolder<String> {
    ValueHolder::Value(Box::new(s.to_string()))
}

#[test]
fn init_values_are_taken_together() {
    let (mut i, mut o, mut u) = (holder("in"), holder("out"), holder("uns"));
    let v = StateInitValues::take(&mut i, &mut o, &mut u, 4).unwrap();
    assert_eq!((*v.input_folder).as_str(), "in");
    assert_eq!((*v.output_folder).as_str(), "out");
    assert_eq!((*v.unsorted_folder).as_str(), "uns");
    assert_eq!((i.used_by(), o.used_by(), u.used_by()), (Some(4), Some(4), Some(4)));
    // a second task cannot take them
    assert!(StateInitValues::take(&mut i, &mut o, &mut u, 5).is_none());
    assert_eq!(i.used_by(), Some(4));
    let done = StateInitValues {
        input_folder: Box::new("/p/INPUT".to_string()),
        output_folder: Box::new("/p/PROCESSED".to_string()),
        unsorted_folder: Box::new("/p/UNSORTED".to_string()),
    };
    assert_eq!(done.put_back(&mut i, &mut o, &mut u), Ok(()));
    assert_eq!(i.to_string(), "/p/INPUT");
    assert_eq!(o.to_string(), "/p/PROCESSED");
    assert_eq!(u.to_string(), "/p/UNSORTED");
}

#[test]
fn init_values_not_taken_when_one_is_busy() {
    let (mut i, mut o, mut u) = (holder("in"), holder("out"), holder("uns"));
    let _ = o.depopulate(1).unwrap();
    assert!(StateInitValues::take(&mut i, &mut o, &mut u, 2).is_none());
    assert!(i.available() && u.available());
    let v = StateInitValues {
        input_folder: Box::new("a".to_string()),
        output_folder: Box::new("b".to_string()),
        unsorted_folder: Box::new("c".to_string()),
    };
    // the input folder is not borrowed: nothing is put back
    assert_eq!(v.put_back(&mut i, &mut o, &mut u), Err(ValueHolderError::AlreadyPopulated));
    assert_eq!(i.to_string(), "in");
    assert_eq!(o.used_by(), Some(1));
}

#[test]
fn file_list_values() {
    let mut folder = holder("/in");
    let mut files = ValueHolder::Value(Box::new(vec!["old".to_string()]));
    let mut v = UpdateNewFileListValues::take(&mut folder, &mut files, 3).unwrap();
    assert_eq!(v.input_folder, "/in");
    assert!(v.new_files.is_empty());
    v.new_files = vec!["/in/a.mp4".to_string(), "/in/b.jpg".to_string()];
    assert_eq!(v.put_back(&mut folder, &mut files), Ok(()));
    assert_eq!(files.to_string(), "2 files");

    let mut ufolder = holder("/uns");
    let mut ufiles = ValueHolder::Value(Box::new(vec![]));
    let mut u = UpdateUnsortedFileListValues::take(&mut ufolder, &mut ufiles, 8).unwrap();
    assert_eq!(u.unsorted_folder, "/uns");
    u.unsorted_files.push("/uns/x".to_string());
    assert!(UpdateUnsortedFileListValues::take(&mut ufolder, &mut ufiles, 9).is_none());
    assert_eq!(u.put_back(&mut ufolder, &mut ufiles), Ok(()));
    assert_eq!(ufiles.to_string(), "1 files");
}

#[test]
fn magick_install_commands() {
    let w = install_candidates("windows");
    assert_eq!(w.len(), 1);
    assert_eq!(w[0].0, "cmd");
    assert_eq!(w[0].1, vec!["/C", "winget", "install", "--id", "ImageMagick.ImageMagick", "--silent"]);
    let l = install_candidates("linux");
    assert_eq!(l.iter().map(|c| c.1[0].as_str()).collect::<Vec<_>>(), vec!["apt-get", "dnf", "pacman", "zypper"]);
    assert!(l.iter().all(|c| c.0 == "sudo" && c.1.last().unwrap() == "imagemagick"));
    assert_eq!(install_candidates("macos"), vec![("brew".to_string(), vec!["install".to_string(), "imagemagick".to_string()])]);
    assert!(install_candidates("freebsd").is_empty());
}

#[test]
fn already_installed_message() {
    assert!(reports_already_installed("No available upgrade found."));
    assert!(!reports_already_installed("No available upgrade found"));
}

#[test]
fn winget_install_location() {
    let out = "Found ImageMagick [ImageMagick.ImageMagick]\r\nVersion: 7.1\r\n  Install Location: C:\\Program Files\\ImageMagick-7.1.1-Q16-HDRI \r\nOther: x\r\n";
    assert_eq!(install_location(out), Some("C:\\Program Files\\ImageMagick-7.1.1-Q16-HDRI".to_string()));
    assert_eq!(install_location("Version: 7.1\nInstalled: yes"), None);
    assert_eq!(install_location("Install Location:"), Some(String::new()));
}

#[test]
fn magick_folder_added_to_path_once() {
    let p = path_with_install_dir("C:\\Windows", "C:\\Magick").unwrap();
    assert_eq!(p, "C:\\Windows;C:\\Magick");
    assert_eq!(path_with_install_dir(&p, "C:\\Magick"), None);
}

fn comps(v: &[&str]) -> Vec<String> {
    v.iter().map(|s| s.to_string()).collect()
}

#[test]
fn imported_file_keeps_its_root_folder() {
    let file = comps(&["home", "me", "cards", "A", "DCIM", "x.jpg"]);
    let roots = vec![comps(&["home", "me", "cards", "A"])];
    assert_eq!(import_relative_path(&file, &roots), comps(&["A", "DCIM", "x.jpg"]));
    // the deepest root wins
    let both = vec![comps(&["home", "me", "cards"]), comps(&["home", "me", "cards", "A"])];
    assert_eq!(import_relative_path(&file, &both), comps(&["A", "DCIM", "x.jpg"]));
    // a root without a parent keeps the whole path
    let top = vec![comps(&["home"])];
    assert_eq!(import_relative_path(&file, &top), file);
}

#[test]
fn imported_file_outside_roots_keeps_its_name() {
    let file = comps(&["tmp", "y.mov"]);
    assert_eq!(import_relative_path(&file, &vec![comps(&["home", "me"])]), comps(&["y.mov"]));
    assert_eq!(import_relative_path(&file, &vec![]), comps(&["y.mov"]));
    assert_eq!(import_relative_path(&vec![], &vec![]), comps(&["unknown"]));
}
