//! The break overlay's decisions: which mpv input a clip path becomes, when a
//! separate rest clip is configured, and the frame listing that plays a
//! frame folder backwards.
use vstd::prelude::*;
use crate::config::{path_join_any, join_any, home_dir_string};
use crate::text::{chars_of, string_of, push_str, push_all, trim, trimmed_string};
use crate::stats::{lex_lt, lex_less, lemma_lex_trans};

verus! {

/// `path` with a leading `~/` replaced by the home directory `home`; any
/// other path, or an unknown home, is returned as it is.
pub open spec fn expanded(path: Seq<char>, home: Option<Seq<char>>) -> Seq<char> {
    if path.len() >= 2 && path[0] == '~' && path[1] == '/' {
        match home {
            Some(h) => path_join_any(h, path.skip(2)),
            None => path,
        }
    } else {
        path
    }
}

/// Expands a leading `~/` in `path` against the given home directory.
pub fn expand_home_with(path: &str, home: Option<&str>) -> (r: String)
    ensures
        r@ == expanded(path@, match home {
            Some(h) => Some(h@),
            None => None,
        }),
{
    let p = chars_of(path);
    if p.len() >= 2 && p[0] == '~' && p[1] == '/' {
        match home {
            Some(h) => {
                let mut rest: Vec<char> = Vec::new();
                let mut i: usize = 2;
                while i < p.len()
                    invariant
                        2 <= i <= p@.len(),
                        rest@ == p@.subrange(2, i as int),
                    decreases p@.len() - i,
                {
                    rest.push(p[i]);
                    i = i + 1;
                }
                assert(rest@ =~= p@.skip(2));
                let hv = chars_of(h);
                string_of(join_any(&hv, &rest))
            },
            None => String::from_str(path),
        }
    } else {
        String::from_str(path)
    }
}

/// Expands a leading `~/` in `path` against the user's home directory, as
/// it is when called.
pub fn expand_home(path: &str) -> (r: String)
    ensures
        exists|home: Option<Seq<char>>| r@ == expanded(path@, home),
{
    let home = home_dir_string();
    match home {
        Some(h) => expand_home_with(path, Some(h.as_str())),
        None => expand_home_with(path, None),
    }
}

/// `Path::is_dir`: whether `path` names an existing directory at the moment
/// of the call. It reads the file system, so nothing is promised of the
/// result.
#[verifier::external_body]
fn path_is_dir(path: &str) -> (r: bool) {
    std::path::Path::new(path).is_dir()
}

/// `Path::is_file`: whether `path` names an existing regular file at the
/// moment of the call. It reads the file system, so nothing is promised of
/// the result.
#[verifier::external_body]
fn path_is_file(path: &str) -> (r: bool) {
    std::path::Path::new(path).is_file()
}

/// An mpv input as plain values.
pub open spec fn input_view(r: Option<(String, bool)>) -> Option<(Seq<char>, bool)> {
    match r {
        Some((s, b)) => Some((s@, b)),
        None => None,
    }
}

/// The mpv input for the expanded clip path: a directory is a PNG frame
/// sequence played through mpv's multi-file input (real per-pixel alpha,
/// `true`); a regular file is played as it is (`false`); anything else has
/// no input.
pub open spec fn mf_input_for(expanded: Seq<char>, is_dir: bool, is_file: bool) -> Option<(Seq<char>, bool)> {
    if is_dir {
        Some(("mf://"@ + expanded + "/*.png"@, true))
    } else if is_file {
        Some((expanded, false))
    } else {
        None
    }
}

/// The mpv input for an already expanded clip path, given what the path is
/// on disk.
pub fn mf_input_from(expanded: &str, is_dir: bool, is_file: bool) -> (r: Option<(String, bool)>)
    ensures
        input_view(r) == mf_input_for(expanded@, is_dir, is_file),
{
    if is_dir {
        let mut out: Vec<char> = Vec::new();
        push_str(&mut out, "mf://");
        push_str(&mut out, expanded);
        push_str(&mut out, "/*.png");
        Some((string_of(out), true))
    } else if is_file {
        Some((String::from_str(expanded), false))
    } else {
        None
    }
}

/// The mpv input URL for `video_path`, and whether it is a frame folder
/// (real per-pixel alpha) rather than a single video file (which needs
/// chroma-keying). A `reversed_listfile` is played through
/// `mf://@listfile` instead of globbing `video_path` — the reversed-entry
/// exit clip.
pub fn mf_input(video_path: &str, reversed_listfile: Option<&str>) -> (r: Option<(String, bool)>)
    ensures
        match reversed_listfile {
            Some(l) => input_view(r) == Some(("mf://@"@ + l@, true)),
            None => exists|home: Option<Seq<char>>, is_dir: bool, is_file: bool|
                input_view(r) == mf_input_for(expanded(video_path@, home), is_dir, is_file),
        },
{
    if let Some(listfile) = reversed_listfile {
        let mut out: Vec<char> = Vec::new();
        push_str(&mut out, "mf://@");
        push_str(&mut out, listfile);
        return Some((string_of(out), true));
    }
    let expanded = expand_home(video_path);
    let is_dir = path_is_dir(expanded.as_str());
    let is_file = if is_dir {
        false
    } else {
        path_is_file(expanded.as_str())
    };
    mf_input_from(expanded.as_str(), is_dir, is_file)
}

/// A separate rest clip is configured: `sleep_path` is not blank and names
/// something other than `video_path` (both compared trimmed).
pub open spec fn has_rest_clip(video_path: Seq<char>, sleep_path: Seq<char>) -> bool {
    trim(sleep_path).len() > 0 && trim(sleep_path) != trim(video_path)
}

/// Whether the break plays the entry clip once and then hands off to a
/// looping rest clip.
pub fn has_sleep_clip(video_path: &str, sleep_path: &str) -> (r: bool)
    ensures
        r == has_rest_clip(video_path@, sleep_path@),
{
    let s = trimmed_string(sleep_path);
    let v = trimmed_string(video_path);
    if s.as_str().is_empty() {
        return false;
    }
    !(s == v)
}

/// Each path followed by a newline, in the given order — what mpv's
/// `mf://@listfile` protocol reads.
pub open spec fn listing(paths: Seq<Seq<char>>) -> Seq<char>
    decreases paths.len(),
{
    if paths.len() == 0 {
        Seq::empty()
    } else {
        listing(paths.drop_last()) + paths.last() + seq!['\n']
    }
}

/// The paths as plain values.
pub open spec fn path_views(paths: Seq<String>) -> Seq<Seq<char>> {
    paths.map_values(|p: String| p@)
}

/// The content of a frame listing for `paths`, one per line in exactly the
/// given order, so a frame folder can be played in reverse without copying
/// any image.
pub fn frame_listing(paths: &Vec<String>) -> (r: String)
    ensures
        r@ == listing(path_views(paths@)),
{
    let mut out: Vec<char> = Vec::new();
    let mut i: usize = 0;
    while i < paths.len()
        invariant
            i <= paths@.len(),
            out@ == listing(path_views(paths@.take(i as int))),
        decreases paths@.len() - i,
    {
        let ghost before = out@;
        push_str(&mut out, paths[i].as_str());
        out.push('\n');
        proof {
            let t = path_views(paths@.take(i as int + 1));
            assert(t.drop_last() =~= path_views(paths@.take(i as int)));
            assert(t.last() == paths@[i as int]@);
            assert(out@ =~= before + paths@[i as int]@ + seq!['\n']);
        }
        i = i + 1;
    }
    assert(paths@.take(paths@.len() as int) =~= paths@);
    string_of(out)
}

/// `p` names a file with the extension `png`: its file name (what follows
/// the last `/`) is at least one character followed by `.png`, as
/// `Path::extension` reads it (a name that is only `.png` has none).
pub open spec fn is_png_path(p: Seq<char>) -> bool {
    p.len() >= 5 && p.subrange(p.len() - 4, p.len() as int) == ".png"@ && p[p.len() - 5] != '/'
}

/// The PNG paths among `ps`, in order.
pub open spec fn png_only(ps: Seq<Seq<char>>) -> Seq<Seq<char>>
    decreases ps.len(),
{
    if ps.len() == 0 {
        Seq::empty()
    } else {
        png_only(ps.drop_last()) + if is_png_path(ps.last()) {
            seq![ps.last()]
        } else {
            Seq::empty()
        }
    }
}

/// Every path is no less (by character code) than the ones before it.
pub open spec fn ascending(r: Seq<Seq<char>>) -> bool {
    forall|i: int, j: int| 0 <= i < j < r.len() ==> !lex_lt(#[trigger] r[j], #[trigger] r[i])
}

fn is_png(p: &Vec<char>) -> (r: bool)
    ensures
        r == is_png_path(p@),
{
    let n = p.len();
    if n < 5 {
        return false;
    }
    let tail = crate::text::slice_chars(p, n - 4, n);
    let png = chars_of(".png");
    let r = crate::text::chars_eq(&tail, &png) && p[n - 5] != '/';
    assert(tail@ == p@.subrange(n - 4, n as int));
    r
}

/// The frames of a frame folder in playing order: the PNG paths among the
/// folder's `entries`, sorted ascending by character code.
pub fn frame_paths_of(entries: &Vec<String>) -> (r: Vec<String>)
    ensures
        ascending(path_views(r@)),
        path_views(r@).to_multiset() == png_only(path_views(entries@)).to_multiset(),
{
    broadcast use vstd::seq_lib::group_to_multiset_ensures;
    let mut out: Vec<String> = Vec::new();
    let mut i: usize = 0;
    assert(path_views(out@) =~= Seq::<Seq<char>>::empty());
    assert(path_views(entries@.take(0)) =~= Seq::<Seq<char>>::empty());
    while i < entries.len()
        invariant
            i <= entries@.len(),
            ascending(path_views(out@)),
            path_views(out@).to_multiset() == png_only(path_views(entries@.take(i as int))).to_multiset(),
        decreases entries@.len() - i,
    {
        let ghost before = path_views(out@);
        let ghost prev = path_views(entries@.take(i as int));
        let ghost t = path_views(entries@.take(i as int + 1));
        let x = chars_of(entries[i].as_str());
        proof {
            assert(t.drop_last() =~= prev);
            assert(t.last() == x@);
        }
        if is_png(&x) {
            let mut p: usize = 0;
            while p < out.len() && !lex_less(&x, &chars_of(out[p].as_str()))
                invariant
                    p <= out@.len(),
                    before == path_views(out@),
                    forall|k: int| 0 <= k < p ==> !lex_lt(x@, #[trigger] before[k]),
                decreases out@.len() - p,
            {
                p = p + 1;
            }
            let ghost after_p = p < out@.len() ==> lex_lt(x@, before[p as int]);
            out.insert(p, entries[i].clone());
            proof {
                let nv = path_views(out@);
                assert(nv =~= before.insert(p as int, x@));
                before.insert_ensures(p as int, x@);
                assert forall|a: int, b: int| 0 <= a < b < nv.len() implies !lex_lt(#[trigger] nv[b], #[trigger] nv[a]) by {
                    if b < p {
                        assert(nv[a] == before[a] && nv[b] == before[b]);
                    } else if b == p {
                        assert(nv[a] == before[a] && nv[b] == x@);
                    } else if a < p {
                        assert(nv[a] == before[a]);
                        assert(nv[b] == before[b - 1]);
                    } else if a == p {
                        assert(nv[a] == x@);
                        assert(nv[b] == before[b - 1]);
                        if lex_lt(before[b - 1], x@) {
                            lemma_lex_trans(before[b - 1], x@, before[p as int]);
                            crate::stats::lemma_lex_total(before[p as int], before[p as int]);
                            if b - 1 > p {
                                assert(!lex_lt(before[b - 1], before[p as int]));
                            }
                        }
                    } else {
                        assert(nv[a] == before[a - 1]);
                        assert(nv[b] == before[b - 1]);
                    }
                }
                vstd::seq_lib::to_multiset_insert(before, p as int, x@);
                assert(png_only(t) =~= png_only(prev).push(x@));
                vstd::seq_lib::to_multiset_build(png_only(prev), x@);
            }
        } else {
            assert(png_only(t) =~= png_only(prev));
        }
        i = i + 1;
    }
    assert(entries@.take(entries@.len() as int) =~= entries@);
    out
}

/// Every path is no greater (by character code) than the ones before it.
pub open spec fn descending(r: Seq<Seq<char>>) -> bool {
    forall|i: int, j: int| 0 <= i < j < r.len() ==> !lex_lt(#[trigger] r[i], #[trigger] r[j])
}

/// The frames of the walk-out clip: the frame folder's PNG paths in reverse
/// playing order, from the last frame back to the first.
pub fn exit_frames(entries: &Vec<String>) -> (r: Vec<String>)
    ensures
        descending(path_views(r@)),
        path_views(r@).to_multiset() == png_only(path_views(entries@)).to_multiset(),
{
    let forward = frame_paths_of(entries);
    let ghost fv = path_views(forward@);
    let mut out: Vec<String> = Vec::new();
    let mut i: usize = forward.len();
    while i > 0
        invariant
            i <= forward@.len(),
            fv == path_views(forward@),
            path_views(out@) == fv.subrange(i as int, fv.len() as int).reverse(),
        decreases i,
    {
        let ghost before = path_views(out@);
        out.push(forward[i - 1].clone());
        proof {
            assert(path_views(out@) =~= before.push(fv[i - 1]));
            assert(fv.subrange(i - 1, fv.len() as int).reverse() =~= fv.subrange(i as int, fv.len() as int).reverse().push(
                fv[i - 1],
            ));
        }
        i = i - 1;
    }
    proof {
        assert(fv.subrange(0, fv.len() as int) =~= fv);
        fv.lemma_reverse_to_multiset();
        let rv = path_views(out@);
        assert(rv =~= fv.reverse());
        assert forall|a: int, b: int| 0 <= a < b < rv.len() implies !lex_lt(#[trigger] rv[a], #[trigger] rv[b]) by {
            assert(rv[a] == fv[fv.len() - 1 - a] && rv[b] == fv[fv.len() - 1 - b]);
        }
    }
    out
}

} // verus!
