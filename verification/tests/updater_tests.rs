use scan_code_sync::updater::{platform_key, update_status, verify_sha256, UpdateError, UpdateStatus};

fn platforms(v: &[&str]) -> Vec<String> {
    v.iter().map(|s| s.to_string()).collect()
}

#[test]
fn newer_release_for_this_platform() {
    let r = update_status("1.2.0".to_string(), "fixes".to_string(), &platforms(&["linux-x86_64", "macos"]), "1.1.9", "macos");
    match r {
        Ok(UpdateStatus::UpdateAvailable { version, notes }) => {
            assert_eq!(version, "1.2.0");
            assert_eq!(notes, "fixes");
        },
        other => panic!("unexpected {:?}", other),
    }
}

#[test]
fn same_or_older_release() {
    let p = platforms(&["macos"]);
    assert!(matches!(update_status("1.2.0".to_string(), String::new(), &p, "1.2.0", "macos"), Ok(UpdateStatus::UpToDate)));
    assert!(matches!(update_status("1.0.0".to_string(), String::new(), &p, "1.2.0", "macos"), Ok(UpdateStatus::UpToDate)));
    // semantic version precedence, not text order
    assert!(matches!(update_status("1.10.0".to_string(), String::new(), &p, "1.9.0", "linux-x86_64"), Ok(UpdateStatus::PlatformNotSupported)));
    assert!(matches!(update_status("1.0.0-beta".to_string(), String::new(), &p, "1.0.0", "macos"), Ok(UpdateStatus::UpToDate)));
}

#[test]
fn bad_versions() {
    let p = platforms(&["macos"]);
    assert!(matches!(update_status("v1".to_string(), String::new(), &p, "1.0.0", "macos"), Err(UpdateError::InvalidLatestVersion)));
    assert!(matches!(update_status("1.0.0".to_string(), String::new(), &p, "one", "macos"), Err(UpdateError::InvalidCurrentVersion)));
}

#[test]
fn platform_keys() {
    assert_eq!(platform_key("windows", "x86_64"), "windows-x86_64");
    assert_eq!(platform_key("macos", "aarch64"), "macos");
    assert_eq!(platform_key("linux", "x86_64"), "linux-x86_64");
    assert_eq!(platform_key("linux", "aarch64"), "unknown");
    assert_eq!(platform_key("windows", "x86"), "unknown");
}

#[test]
fn checksums() {
    assert_eq!(
        verify_sha256(b"hello", "sha256:2cf24dba5fb0a30e26e83b2ac5b9e29e1b161e5c1fa7425e73043362938b9824"),
        Ok(())
    );
    assert_eq!(
        verify_sha256(b"", "sha256:e3b0c44298fc1c149afbf4c8996fb92427ae41e4649b934ca495991b7852b855"),
        Ok(())
    );
    assert_eq!(
        verify_sha256(b"hello", "sha256:2CF24DBA5FB0A30E26E83B2AC5B9E29E1B161E5C1FA7425E73043362938B9824"),
        Err(UpdateError::ChecksumMismatch)
    );
    assert_eq!(verify_sha256(b"hello", "hello"), Err(UpdateError::ChecksumMismatch));
}
