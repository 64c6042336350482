use scan_code_sync::util::magick_dimensions;
use scan_code_sync::util::{
    get_config_value, parse_batch_mimetypes, path_export_line, rc_needs_export, set_config_text,
    set_user_path_command, supported_extensions, truncate_front, user_path_with,
};

#[test]
fn truncation_from_the_front() {
    assert_eq!(truncate_front("short", 30), "short");
    assert_eq!(truncate_front("/home/user/projects/footage", 10), "...footage");
    assert_eq!(truncate_front("abcdef", 2), "...");
    assert_eq!(truncate_front("abcdef", 6), "abcdef");
    assert_eq!(truncate_front("ééééé", 4), "...é");
}

#[test]
fn config_write_then_read() {
    let text = "input_folder=/a\noutput_folder=/b";
    let new = set_config_text(text, "output_folder", "/c=d");
    assert_eq!(new, "input_folder=/a\noutput_folder=/cd");
    assert_eq!(get_config_value(&new, "output_folder"), Some("/cd".to_string()));
    assert_eq!(get_config_value(&new, "input_folder"), Some("/a".to_string()));
}

#[test]
fn config_only_rewrites_existing_keys() {
    let text = "a=1\n";
    assert_eq!(set_config_text(text, "b", "2"), "a=1");
    assert_eq!(get_config_value("a=1", "b"), None);
}

#[test]
fn config_lookup_details() {
    assert_eq!(get_config_value("k=v=w\nk=x", "k"), Some("w".to_string()));
    assert_eq!(get_config_value("k\nk=x", "k"), None);
    assert_eq!(get_config_value("", "k"), None);
    assert_eq!(set_config_text("k=1\nj=2\nk=3", "k", "9"), "k=9\nj=2\nk=9");
}

#[test]
fn batch_mimetypes() {
    let out = "image/jpeg\t/a/b.jpg\nbroken line\nvideo/mp4 \t /c d.mp4 \n";
    assert_eq!(
        parse_batch_mimetypes(out),
        vec![
            ("/a/b.jpg".to_string(), "image/jpeg".to_string()),
            ("/c d.mp4".to_string(), "video/mp4".to_string()),
        ]
    );
    assert!(parse_batch_mimetypes("").is_empty());
}

#[test]
fn ffmpeg_formats() {
    let stdout = "File formats:\n D. = Demuxing supported\n .E = Muxing supported\n --\n D  mov,mp4,m4a,3gp,3g2,mj2 QuickTime / MOV\n  E mp3             MP3 (MPEG audio layer 3)\n    null           nothing\n";
    let exts = supported_extensions(stdout, " DE wav  WAV / WAVE\n D  mp4,,MOV x\n");
    // a set, as a sorted list: each extension once, in byte order
    assert_eq!(exts, vec!["3g2", "3gp", "MOV", "m4a", "mj2", "mov", "mp3", "mp4", "wav"]);
    let mut sorted = exts.clone();
    sorted.sort();
    sorted.dedup();
    assert_eq!(exts, sorted);
}

#[test]
fn windows_user_path() {
    assert_eq!(user_path_with("  C:\\a;C:\\b ", "C:\\ffmpeg"), Some("C:\\a;C:\\b;C:\\ffmpeg".to_string()));
    assert_eq!(user_path_with("", "C:\\ffmpeg"), Some("C:\\ffmpeg".to_string()));
    assert_eq!(user_path_with("C:\\a; C:\\ffmpeg ;C:\\b", "C:\\ffmpeg"), None);
    let once = user_path_with("C:\\a", "C:\\ffmpeg").unwrap();
    assert_eq!(user_path_with(&once, "C:\\ffmpeg"), None);
}

#[test]
fn powershell_command_escapes_quotes() {
    assert_eq!(
        set_user_path_command("C:\\it's"),
        "[Environment]::SetEnvironmentVariable('PATH', 'C:\\it''s', 'User')"
    );
}

#[test]
fn shell_export_line() {
    let line = path_export_line("/home/me/.cache/ffmpeg");
    assert_eq!(line, "\nexport PATH=\"/home/me/.cache/ffmpeg:$PATH\"\n");
    assert!(rc_needs_export("alias ll='ls -l'\n", "/home/me/.cache/ffmpeg"));
    let patched = format!("alias ll='ls -l'\n{}", line);
    assert!(!rc_needs_export(&patched, "/home/me/.cache/ffmpeg"));
}

#[test]
fn magick_image_size() {
    assert_eq!(magick_dimensions("photo.jpg JPEG 1024x766 1024x766+0+0 8-bit Gray 256c 0.000u"), Some((1024, 766)));
    assert_eq!(magick_dimensions("no size here"), None);
    assert_eq!(magick_dimensions("a 12x b"), None);
    assert_eq!(magick_dimensions("a 1x2x3"), None);
    // the first size-like word decides
    assert_eq!(magick_dimensions("x 10x20"), None);
    assert_eq!(magick_dimensions(""), None);
}
