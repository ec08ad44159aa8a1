use pawpause_applet::outputs::{output_names, strip_ansi};

#[test]
fn output_names_skip_indented_property_lines() {
    let listing = "\u{1b}[1meDP-1\u{1b}[0m (enabled)\n  Make: BOE\n  Modes:\n    1920x1080 @ 60 Hz\nHDMI-A-1 (disabled)\n\n";
    assert_eq!(output_names(listing), vec!["eDP-1".to_string(), "HDMI-A-1".to_string()]);
}

#[test]
fn output_names_of_nothing_is_empty() {
    assert!(output_names("").is_empty());
    assert!(output_names("   \n\t\n").is_empty());
}

#[test]
fn strip_ansi_removes_color_codes() {
    assert_eq!(strip_ansi("\u{1b}[32mok\u{1b}[0m"), "ok");
}
