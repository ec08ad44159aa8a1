pub mod text;
pub mod ansi;
pub mod config;
pub mod outputs;
pub mod pomodoro;
pub mod tasks;
pub mod wallpaper_blur;
pub mod dates;
pub mod stats;
pub mod laptop_usage;
pub mod task_view;
pub mod overlay;
pub mod applet;
pub mod dashboard;
