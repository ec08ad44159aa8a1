//! Timer configuration and its defaults.
use vstd::prelude::*;
use crate::text::{chars_of, string_of, push_str, push_all};

verus! {

/// Timer durations, the break video, and the Wayland output the overlay
/// targets. Loaded from and saved to JSON by the application.
#[derive(Debug, Clone)]
pub struct Config {
    pub work_minutes: u64,
    pub short_break_minutes: u64,
    pub long_break_minutes: u64,
    pub sessions_before_long_break: u32,
    pub video_path: String,
    pub wayland_output: String,
}

/// `base` joined with the relative component `comp` the way `PathBuf::join`
/// does on Unix: a `/` goes between them unless `base` is empty or already
/// ends in one.
pub open spec fn path_join(base: Seq<char>, comp: Seq<char>) -> Seq<char> {
    if base.len() == 0 || base.last() == '/' {
        base + comp
    } else {
        base + seq!['/'] + comp
    }
}

/// Joins the relative component `comp` onto `base` (see `path_join`).
pub fn join_path(base: &Vec<char>, comp: &str) -> (r: Vec<char>)
    ensures
        r@ == path_join(base@, comp@),
{
    let mut out: Vec<char> = Vec::new();
    push_all(&mut out, base);
    if base.len() > 0 && base[base.len() - 1] != '/' {
        out.push('/');
    }
    push_str(&mut out, comp);
    proof {
        if base@.len() > 0 {
            assert(base@.last() == base@[base@.len() - 1]);
        }
        if base@.len() == 0 || base@.last() == '/' {
            assert(out@ =~= base@ + comp@);
        } else {
            assert(out@ =~= base@ + seq!['/'] + comp@);
        }
    }
    out
}

/// `comp` joined onto `base` as `Path::join` does on Unix: an absolute `comp`
/// replaces `base`; otherwise see `path_join`.
pub open spec fn path_join_any(base: Seq<char>, comp: Seq<char>) -> Seq<char> {
    if comp.len() > 0 && comp[0] == '/' {
        comp
    } else {
        path_join(base, comp)
    }
}

/// Joins `comp` onto `base` (see `path_join_any`).
pub(crate) fn join_any(base: &Vec<char>, comp: &Vec<char>) -> (r: Vec<char>)
    ensures
        r@ == path_join_any(base@, comp@),
{
    if comp.len() > 0 && comp[0] == '/' {
        return comp.clone();
    }
    let mut out: Vec<char> = Vec::new();
    push_all(&mut out, base);
    if base.len() > 0 && base[base.len() - 1] != '/' {
        out.push('/');
    }
    push_all(&mut out, comp);
    proof {
        if base@.len() > 0 {
            assert(base@.last() == base@[base@.len() - 1]);
        }
        if base@.len() == 0 || base@.last() == '/' {
            assert(out@ =~= base@ + comp@);
        } else {
            assert(out@ =~= base@ + seq!['/'] + comp@);
        }
    }
    out
}

/// The user's home directory (`dirs::home_dir`), converted lossily to a
/// string. Depends on the environment; nothing is promised of the result.
#[verifier::external_body]
pub(crate) fn home_dir_string() -> (r: Option<String>) {
    dirs::home_dir().map(|p| p.to_string_lossy().into_owned())
}

/// `<home>/.config/pawpause/<name>` for the home directory `home`; an
/// unknown home is taken as the empty path.
pub open spec fn pawpause_file_under(home: Option<Seq<char>>, name: Seq<char>) -> Seq<char> {
    let h = match home {
        Some(h) => h,
        None => Seq::empty(),
    };
    path_join(path_join(path_join(h, ".config"@), "pawpause"@), name)
}

/// The path of the application file `name` under the given home directory.
pub fn pawpause_file(home: Option<&str>, name: &str) -> (r: String)
    ensures
        r@ == pawpause_file_under(match home {
            Some(h) => Some(h@),
            None => None,
        }, name@),
{
    let h: Vec<char> = match home {
        Some(h) => chars_of(h),
        None => Vec::new(),
    };
    proof {
        if home is None {
            assert(h@ =~= Seq::<char>::empty());
        }
    }
    let a = join_path(&h, ".config");
    let b = join_path(&a, "pawpause");
    string_of(join_path(&b, name))
}

/// The path of the application file `name` under the user's home directory.
pub fn pawpause_file_in_home(name: &str) -> (r: String)
    ensures
        exists|home: Option<Seq<char>>| r@ == pawpause_file_under(home, name@),
{
    let home = home_dir_string();
    match home {
        Some(h) => pawpause_file(Some(h.as_str()), name),
        None => pawpause_file(None, name),
    }
}

/// `~/.config/pawpause/config`, where the configuration is kept.
pub fn config_path() -> (r: String)
    ensures
        exists|home: Option<Seq<char>>| r@ == pawpause_file_under(home, "config"@),
{
    pawpause_file_in_home("config")
}

pub fn default_work_minutes() -> (r: u64)
    ensures
        r == 25,
{
    25
}

pub fn default_short_break_minutes() -> (r: u64)
    ensures
        r == 5,
{
    5
}

pub fn default_long_break_minutes() -> (r: u64)
    ensures
        r == 20,
{
    20
}

pub fn default_sessions_before_long_break() -> (r: u32)
    ensures
        r == 4,
{
    4
}

/// `<home>/Videos/pawpause-break.mp4` for the given home directory; an
/// unknown home (`None`) is treated as the empty path.
pub open spec fn video_path_under(home: Option<Seq<char>>) -> Seq<char> {
    let h = match home {
        Some(h) => h,
        None => Seq::empty(),
    };
    path_join(path_join(h, "Videos"@), "pawpause-break.mp4"@)
}

/// The default break video under the given home directory.
pub fn video_path_under_home(home: Option<&str>) -> (r: String)
    ensures
        r@ == video_path_under(match home {
            Some(h) => Some(h@),
            None => None,
        }),
{
    let h: Vec<char> = match home {
        Some(h) => chars_of(h),
        None => Vec::new(),
    };
    let videos = join_path(&h, "Videos");
    let full = join_path(&videos, "pawpause-break.mp4");
    proof {
        if home is None {
            assert(h@ =~= Seq::<char>::empty());
        }
    }
    string_of(full)
}

pub fn default_video_path() -> (r: String)
    ensures
        exists|home: Option<Seq<char>>| r@ == video_path_under(home),
{
    let home = home_dir_string();
    match home {
        Some(h) => {
            let r = video_path_under_home(Some(h.as_str()));
            r
        },
        None => video_path_under_home(None),
    }
}

pub fn default_wayland_output() -> (r: String)
    ensures
        r@ == "eDP-1"@,
{
    String::from_str("eDP-1")
}

/// The defaults of every field, with `video_path` under some home directory.
pub open spec fn is_default_config(c: Config) -> bool {
    &&& c.work_minutes == 25
    &&& c.short_break_minutes == 5
    &&& c.long_break_minutes == 20
    &&& c.sessions_before_long_break == 4
    &&& exists|home: Option<Seq<char>>| c.video_path@ == video_path_under(home)
    &&& c.wayland_output@ == "eDP-1"@
}

impl Default for Config {
    fn default() -> (c: Self)
        ensures
            is_default_config(c),
    {
        Config {
            work_minutes: default_work_minutes(),
            short_break_minutes: default_short_break_minutes(),
            long_break_minutes: default_long_break_minutes(),
            sessions_before_long_break: default_sessions_before_long_break(),
            video_path: default_video_path(),
            wayland_output: default_wayland_output(),
        }
    }
}

} // verus!
