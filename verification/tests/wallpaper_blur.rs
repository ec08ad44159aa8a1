use pawpause_applet::wallpaper_blur::{blur_filter_arg, extract_source, replace_source, target_config_file, WallpaperBackup};

const SAMPLE_RON: &str = "(\n    output: \"all\",\n    source: Path(\"/usr/share/backgrounds/cosmic/earth.jpg\"),\n    filter_by_theme: true,\n    rotation_frequency: 300,\n)";

#[test]
fn extracts_the_source_path() {
    let (_, _, path) = extract_source(SAMPLE_RON).unwrap();
    assert_eq!(path, "/usr/share/backgrounds/cosmic/earth.jpg");
}

#[test]
fn replace_source_only_touches_the_source_line() {
    let replaced = replace_source(SAMPLE_RON, "/tmp/blurred.jpg").unwrap();
    assert!(replaced.contains("source: Path(\"/tmp/blurred.jpg\")"));
    assert!(replaced.contains("output: \"all\""));
    assert!(replaced.contains("rotation_frequency: 300"));
    // Round-trips back to the original when replaced again.
    let restored = replace_source(&replaced, "/usr/share/backgrounds/cosmic/earth.jpg").unwrap();
    assert_eq!(restored, SAMPLE_RON);
}

#[test]
fn missing_source_marker_returns_none() {
    assert!(extract_source("(\n    output: \"all\",\n)").is_none());
}

#[test]
fn extract_reports_byte_offsets_of_the_path() {
    let (start, end, path) = extract_source(SAMPLE_RON).unwrap();
    assert_eq!(&SAMPLE_RON[start..end], path);
    let multibyte = "é source: Path(\"ü.jpg\")";
    let (s, e, p) = extract_source(multibyte).unwrap();
    assert_eq!(p, "ü.jpg");
    assert_eq!(&multibyte[s..e], "ü.jpg");
    assert_eq!(s, 17);
    assert_eq!(e, 23);
}

#[test]
fn unterminated_source_is_none() {
    assert!(extract_source("source: Path(\"/no/closing/quote").is_none());
    assert!(replace_source("source: Path(\"/no/closing/quote", "/x").is_none());
}

#[test]
fn reading_back_a_replaced_source_gives_the_new_path() {
    let replaced = replace_source(SAMPLE_RON, "/cache/blurred.jpg").unwrap();
    assert_eq!(extract_source(&replaced).unwrap().2, "/cache/blurred.jpg");
}

#[test]
fn blur_argument_has_one_decimal() {
    assert_eq!(blur_filter_arg(25), "gblur=sigma=2.5");
    assert_eq!(blur_filter_arg(100), "gblur=sigma=10.0");
    assert_eq!(blur_filter_arg(7), "gblur=sigma=0.7");
}

#[test]
fn target_config_prefers_the_shared_file() {
    let dir = "/home/u/.config/cosmic/com.system76.CosmicBackground/v1";
    assert_eq!(target_config_file(dir, "eDP-1", Some(" true\n"), true), format!("{dir}/all"));
    assert_eq!(target_config_file(dir, "eDP-1", None, true), format!("{dir}/all"));
    assert_eq!(target_config_file(dir, "eDP-1", Some("false"), true), format!("{dir}/eDP-1"));
    assert_eq!(target_config_file(dir, "eDP-1", Some("false"), false), format!("{dir}/all"));
    assert_eq!(target_config_file("/cfg/", "HDMI-A-1", Some("false"), true), "/cfg/HDMI-A-1");
    assert_eq!(target_config_file("/cfg", "/elsewhere/out", Some("false"), true), "/elsewhere/out");
}

#[test]
fn backup_remembers_what_was_changed() {
    let b = WallpaperBackup::new("/cfg/all".to_string(), "/img/earth.jpg".to_string());
    assert_eq!(b.config_file(), "/cfg/all");
    assert_eq!(b.original_source(), "/img/earth.jpg");
}
