use pawpause_applet::ansi::strip_ansi_codes;

#[test]
fn strips_color_codes_and_keeps_plain_text() {
    assert_eq!(strip_ansi_codes("\u{1b}[1;32meDP-1\u{1b}[0m (enabled)"), "eDP-1 (enabled)");
}

#[test]
fn leaves_plain_text_untouched() {
    assert_eq!(strip_ansi_codes("no codes here"), "no codes here");
}

#[test]
fn escape_without_bracket_is_kept() {
    assert_eq!(strip_ansi_codes("a\u{1b}b"), "a\u{1b}b");
}

#[test]
fn unterminated_sequence_runs_to_the_end() {
    assert_eq!(strip_ansi_codes("ok\u{1b}[12;3"), "ok");
}

#[test]
fn empty_input_gives_empty_output() {
    assert_eq!(strip_ansi_codes(""), "");
}
