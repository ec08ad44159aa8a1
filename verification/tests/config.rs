use pawpause_applet::config::{config_path, pawpause_file, video_path_under_home, Config};
use pawpause_applet::stats::sessions_path;
use pawpause_applet::tasks::store_path;
use pawpause_applet::wallpaper_blur::config_dir;

#[test]
fn defaults_match_a_classic_pomodoro() {
    let c = Config::default();
    assert_eq!(c.work_minutes, 25);
    assert_eq!(c.short_break_minutes, 5);
    assert_eq!(c.long_break_minutes, 20);
    assert_eq!(c.sessions_before_long_break, 4);
    assert_eq!(c.wayland_output, "eDP-1");
    assert!(c.video_path.ends_with("Videos/pawpause-break.mp4"));
}

#[test]
fn default_video_lives_under_home() {
    assert_eq!(video_path_under_home(Some("/home/u")), "/home/u/Videos/pawpause-break.mp4");
    assert_eq!(video_path_under_home(Some("/home/u/")), "/home/u/Videos/pawpause-break.mp4");
    assert_eq!(video_path_under_home(None), "Videos/pawpause-break.mp4");
}

#[test]
fn application_files_live_under_config_pawpause() {
    assert_eq!(pawpause_file(Some("/home/u"), "tasks.json"), "/home/u/.config/pawpause/tasks.json");
    assert_eq!(pawpause_file(None, "config"), ".config/pawpause/config");
    assert!(config_path().ends_with(".config/pawpause/config"));
    assert!(sessions_path().ends_with(".config/pawpause/sessions.json"));
    assert!(store_path().ends_with(".config/pawpause/tasks.json"));
    assert!(config_dir().ends_with(".config/cosmic/com.system76.CosmicBackground/v1"));
}
