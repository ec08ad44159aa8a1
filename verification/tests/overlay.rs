use pawpause_applet::overlay::{exit_frames, expand_home_with, frame_listing, frame_paths_of, has_sleep_clip, mf_input, mf_input_from};

#[test]
fn mf_input_prefers_the_reversed_listfile_when_given() {
    let listfile = "/tmp/pawpause-exit-list.txt";
    let (input, is_frame_folder) = mf_input("/some/entry/dir", Some(listfile)).unwrap();
    assert_eq!(input, "mf://@/tmp/pawpause-exit-list.txt");
    assert!(is_frame_folder);
}

#[test]
fn mf_input_is_none_for_a_missing_path() {
    assert!(mf_input("/definitely/does/not/exist", None).is_none());
}

#[test]
fn mf_input_globs_an_existing_directory() {
    let (input, is_frame_folder) = mf_input("/", None).unwrap();
    assert_eq!(input, "mf:////*.png");
    assert!(is_frame_folder);
}

#[test]
fn mf_input_from_decides_by_what_the_path_is() {
    assert_eq!(mf_input_from("/clips/cat", true, false), Some(("mf:///clips/cat/*.png".to_string(), true)));
    assert_eq!(mf_input_from("/clips/cat.mp4", false, true), Some(("/clips/cat.mp4".to_string(), false)));
    assert_eq!(mf_input_from("/clips/none", false, false), None);
}

#[test]
fn home_is_expanded_only_for_a_tilde_slash_prefix() {
    assert_eq!(expand_home_with("~/Videos/cat.mp4", Some("/home/u")), "/home/u/Videos/cat.mp4");
    assert_eq!(expand_home_with("~/Videos/cat.mp4", Some("/home/u/")), "/home/u/Videos/cat.mp4");
    assert_eq!(expand_home_with("~/", Some("/home/u")), "/home/u/");
    assert_eq!(expand_home_with("~//abs", Some("/home/u")), "/abs");
    assert_eq!(expand_home_with("~/x", None), "~/x");
    assert_eq!(expand_home_with("~x", Some("/home/u")), "~x");
    assert_eq!(expand_home_with("/abs/path", Some("/home/u")), "/abs/path");
}

#[test]
fn a_rest_clip_needs_a_different_nonblank_path() {
    assert!(has_sleep_clip("/a/entry", "/a/sleep"));
    assert!(!has_sleep_clip("/a/entry", "   "));
    assert!(!has_sleep_clip("/a/entry", " /a/entry "));
    assert!(!has_sleep_clip(" /a/entry", "/a/entry"));
}

#[test]
fn frame_listing_preserves_given_order() {
    let paths = vec!["/tmp/b.png".to_string(), "/tmp/a.png".to_string()];
    assert_eq!(frame_listing(&paths), "/tmp/b.png\n/tmp/a.png\n");
    assert_eq!(frame_listing(&Vec::new()), "");
}

#[test]
fn frame_folder_plays_png_frames_in_name_order() {
    let entries = vec![
        "/d/b.png".to_string(),
        "/d/notes.txt".to_string(),
        "/d/a.png".to_string(),
        "/d/.png".to_string(),
        "/d/c.PNG".to_string(),
        "/d/a.png.bak".to_string(),
        "/d/a.b.png".to_string(),
    ];
    assert_eq!(frame_paths_of(&entries), vec!["/d/a.b.png".to_string(), "/d/a.png".to_string(), "/d/b.png".to_string()]);
    assert!(frame_paths_of(&Vec::new()).is_empty());
}

#[test]
fn mf_input_plays_an_existing_file_as_it_is() {
    let p = "/etc/passwd";
    if std::path::Path::new(p).is_file() {
        assert_eq!(mf_input(p, None), Some((p.to_string(), false)));
    }
}

#[test]
fn walk_out_plays_the_frames_backwards() {
    let entries = vec!["/d/b.png".to_string(), "/d/notes.txt".to_string(), "/d/a.png".to_string(), "/d/c.png".to_string()];
    assert_eq!(exit_frames(&entries), vec!["/d/c.png".to_string(), "/d/b.png".to_string(), "/d/a.png".to_string()]);
    assert!(exit_frames(&vec!["/d/x.txt".to_string()]).is_empty());
}
