//! Locating and rewriting the wallpaper `source` entry of a `cosmic-bg`
//! config file, and the ffmpeg blur argument.
use vstd::prelude::*;
use crate::text::{chars_of, string_of, push_str, push_all, push_dec, dec, slice_chars, trim, find_char_from, find_char, lemma_find_char_found, lemma_find_char_from};
use crate::config::{path_join, join_path, path_join_any, join_any};

verus! {

/// Number of bytes the UTF-8 encoding of `c` takes.
pub open spec fn utf8_width(c: char) -> nat {
    if (c as u32) < 0x80 {
        1
    } else if (c as u32) < 0x800 {
        2
    } else if (c as u32) < 0x10000 {
        3
    } else {
        4
    }
}

/// Number of bytes the UTF-8 encoding of `s` takes.
pub open spec fn utf8_len(s: Seq<char>) -> nat
    decreases s.len(),
{
    if s.len() == 0 {
        0
    } else {
        utf8_len(s.drop_last()) + utf8_width(s.last())
    }
}

/// `pat` occurs in `s` starting at `i`.
pub open spec fn occurs_at(s: Seq<char>, pat: Seq<char>, i: int) -> bool {
    0 <= i && i + pat.len() <= s.len() && s.subrange(i, i + pat.len()) == pat
}

/// The first position at or after `i` where `pat` occurs in `s`.
pub open spec fn find_from(s: Seq<char>, pat: Seq<char>, i: int) -> Option<int>
    decreases s.len() + 1 - i,
{
    if i < 0 || i + pat.len() > s.len() {
        None
    } else if occurs_at(s, pat, i) {
        Some(i)
    } else {
        find_from(s, pat, i + 1)
    }
}

/// The marker that precedes the wallpaper path.
pub open spec fn source_marker() -> Seq<char> {
    "source: Path(\""@
}

/// Character positions `(start, end)` of the path after the first marker:
/// from just after the marker to the next `"`.
pub open spec fn source_span(s: Seq<char>) -> Option<(int, int)> {
    match find_from(s, source_marker(), 0) {
        Some(m) => {
            let start = m + source_marker().len();
            match find_char_from(s, '"', start) {
                Some(end) => Some((start, end)),
                None => None,
            }
        },
        None => None,
    }
}

proof fn lemma_find_from(s: Seq<char>, pat: Seq<char>, i: int, j: int)
    requires
        0 <= i <= j,
        forall|k: int| i <= k < j ==> !occurs_at(s, pat, k),
    ensures
        find_from(s, pat, i) == find_from(s, pat, j),
    decreases j - i,
{
    if i < j {
        if i + pat.len() <= s.len() {
            lemma_find_from(s, pat, i + 1, j);
        } else {
            lemma_find_none_past(s, pat, j);
        }
    }
}

proof fn lemma_find_none_past(s: Seq<char>, pat: Seq<char>, j: int)
    requires
        j >= 0,
        j + pat.len() > s.len(),
    ensures
        find_from(s, pat, j) is None,
{
}

proof fn lemma_find_from_found(s: Seq<char>, pat: Seq<char>, i: int)
    requires
        0 <= i,
    ensures
        find_from(s, pat, i) matches Some(k) ==> i <= k && occurs_at(s, pat, k),
    decreases s.len() + 1 - i,
{
    if i + pat.len() <= s.len() && !occurs_at(s, pat, i) {
        lemma_find_from_found(s, pat, i + 1);
    }
}

fn occurs_at_exec(v: &Vec<char>, pat: &Vec<char>, i: usize) -> (r: bool)
    requires
        i + pat@.len() <= v@.len(),
    ensures
        r == occurs_at(v@, pat@, i as int),
{
    let n = v.len();
    let mut k: usize = 0;
    while k < pat.len()
        invariant
            n == v@.len(),
            i + pat@.len() <= v@.len(),
            k <= pat@.len(),
            forall|j: int| 0 <= j < k ==> v@[i + j] == pat@[j],
        decreases pat@.len() - k,
    {
        if v[i + k] != pat[k] {
            assert(v@.subrange(i as int, i + pat@.len())[k as int] != pat@[k as int]);
            return false;
        }
        k = k + 1;
    }
    assert(v@.subrange(i as int, i + pat@.len()) =~= pat@);
    true
}

/// The first occurrence of `pat` in `v`.
pub fn find_chars(v: &Vec<char>, pat: &Vec<char>) -> (r: Option<usize>)
    ensures
        match r {
            Some(i) => find_from(v@, pat@, 0) == Some(i as int),
            None => find_from(v@, pat@, 0) is None,
        },
{
    if pat.len() > v.len() {
        return None;
    }
    let last: usize = v.len() - pat.len();
    let mut i: usize = 0;
    loop
        invariant
            last + pat@.len() == v@.len(),
            i <= last,
            forall|k: int| 0 <= k < i ==> !occurs_at(v@, pat@, k),
        decreases last - i,
    {
        if occurs_at_exec(v, pat, i) {
            proof {
                lemma_find_from(v@, pat@, 0, i as int);
            }
            return Some(i);
        }
        if i == last {
            proof {
                lemma_find_from(v@, pat@, 0, i + 1);
                lemma_find_none_past(v@, pat@, i + 1);
            }
            return None;
        }
        i = i + 1;
    }
}

fn source_span_exec(v: &Vec<char>) -> (r: Option<(usize, usize)>)
    ensures
        match r {
            Some((a, b)) => source_span(v@) == Some((a as int, b as int)) && a <= b <= v@.len(),
            None => source_span(v@) is None,
        },
{
    let n = v.len();
    let marker = chars_of("source: Path(\"");
    let m = match find_chars(v, &marker) {
        Some(m) => m,
        None => return None,
    };
    proof {
        lemma_find_from_found(v@, marker@, 0);
    }
    let start = m + marker.len();
    match find_char(v, '"', start) {
        Some(end) => {
            proof {
                lemma_find_char_found(v@, '"', start as int);
            }
            Some((start, end))
        },
        None => None,
    }
}

fn utf8_len_exec(v: &Vec<char>, n: usize) -> (r: usize)
    requires
        n <= v@.len(),
        utf8_len(v@.take(n as int)) <= usize::MAX,
    ensures
        r == utf8_len(v@.take(n as int)),
{
    let mut total: usize = 0;
    let mut i: usize = 0;
    while i < n
        invariant
            n <= v@.len(),
            i <= n,
            total == utf8_len(v@.take(i as int)),
            utf8_len(v@.take(n as int)) <= usize::MAX,
        decreases n - i,
    {
        proof {
            assert(v@.take(i + 1).drop_last() =~= v@.take(i as int));
            lemma_utf8_len_prefix(v@, (i + 1) as int, n as int);
        }
        let c = v[i];
        let w: usize = if (c as u32) < 0x80 {
            1
        } else if (c as u32) < 0x800 {
            2
        } else if (c as u32) < 0x10000 {
            3
        } else {
            4
        };
        total = total + w;
        i = i + 1;
    }
    total
}

proof fn lemma_utf8_len_prefix(s: Seq<char>, i: int, n: int)
    requires
        0 <= i <= n <= s.len(),
    ensures
        utf8_len(s.take(i)) <= utf8_len(s.take(n)),
    decreases n - i,
{
    if i < n {
        lemma_utf8_len_prefix(s, i, n - 1);
        assert(s.take(n).drop_last() =~= s.take(n - 1));
    }
}

/// What `extract_source` returns for `content`: the byte offsets of the path
/// and the path itself.
pub open spec fn extracted(content: Seq<char>) -> Option<(int, int, Seq<char>)> {
    match source_span(content) {
        Some((a, b)) => Some((utf8_len(content.take(a)) as int, utf8_len(content.take(b)) as int, content.subrange(a, b))),
        None => None,
    }
}

/// Extracts the current `source: Path("...")` value and returns it alongside
/// the byte ranges needed to splice in a replacement.
pub fn extract_source(content: &str) -> (r: Option<(usize, usize, String)>)
    requires
        utf8_len(content@) <= usize::MAX,
    ensures
        match r {
            Some((a, b, p)) => extracted(content@) == Some((a as int, b as int, p@)),
            None => extracted(content@) is None,
        },
{
    let v = chars_of(content);
    match source_span_exec(&v) {
        Some((a, b)) => {
            proof {
                assert(v@.take(v@.len() as int) =~= v@);
                lemma_utf8_len_prefix(v@, b as int, v@.len() as int);
                lemma_utf8_len_prefix(v@, a as int, b as int);
            }
            let ba = utf8_len_exec(&v, a);
            let bb = utf8_len_exec(&v, b);
            let p = string_of(slice_chars(&v, a, b));
            Some((ba, bb, p))
        },
        None => None,
    }
}

/// `content` with the path after the marker replaced by `new_path`.
pub open spec fn replaced(content: Seq<char>, new_path: Seq<char>) -> Option<Seq<char>> {
    match source_span(content) {
        Some((a, b)) => Some(content.take(a) + new_path + content.skip(b)),
        None => None,
    }
}

pub fn replace_source(content: &str, new_path: &str) -> (r: Option<String>)
    ensures
        match r {
            Some(s) => replaced(content@, new_path@) == Some(s@),
            None => replaced(content@, new_path@) is None,
        },
{
    let v = chars_of(content);
    match source_span_exec(&v) {
        Some((a, b)) => {
            let mut out = slice_chars(&v, 0, a);
            push_str(&mut out, new_path);
            let tail = slice_chars(&v, b, v.len());
            push_all(&mut out, &tail);
            assert(out@ =~= v@.take(a as int) + new_path@ + v@.skip(b as int));
            Some(string_of(out))
        },
        None => None,
    }
}

/// The ffmpeg filter for a blur setting of `blur` (0-100): `gblur=sigma=`
/// followed by `blur / 10` with one decimal.
pub open spec fn blur_filter(blur: nat) -> Seq<char> {
    "gblur=sigma="@ + dec(blur / 10) + "."@ + dec(blur % 10)
}

pub fn blur_filter_arg(blur: u32) -> (r: String)
    ensures
        r@ == blur_filter(blur as nat),
{
    let mut out = chars_of("gblur=sigma=");
    push_dec(&mut out, (blur / 10) as u64);
    push_str(&mut out, ".");
    push_dec(&mut out, (blur % 10) as u64);
    string_of(out)
}

/// The `cosmic-bg` config file to rewrite in the config directory `dir`:
/// the shared `all` file when the `same-on-all` flag file says `true` (or is
/// missing), otherwise the output's own file if it exists (an absolute
/// output name stands for itself, as `Path::join` has it), else `all`.
pub open spec fn target_config(dir: Seq<char>, output_name: Seq<char>, same_on_all_file: Option<Seq<char>>, per_output_is_file: bool) -> Seq<char> {
    let same_on_all = match same_on_all_file {
        Some(text) => trim(text) == "true"@,
        None => true,
    };
    if same_on_all {
        path_join(dir, "all"@)
    } else if per_output_is_file {
        path_join_any(dir, output_name)
    } else {
        path_join(dir, "all"@)
    }
}

pub fn target_config_file(dir: &str, output_name: &str, same_on_all_file: Option<&str>, per_output_is_file: bool) -> (r: String)
    ensures
        r@ == target_config(dir@, output_name@, match same_on_all_file {
            Some(t) => Some(t@),
            None => None,
        }, per_output_is_file),
{
    let d = chars_of(dir);
    let same_on_all = match same_on_all_file {
        Some(text) => {
            let t = crate::text::trim_chars(&chars_of(text));
            let tru = chars_of("true");
            crate::text::chars_eq(&t, &tru)
        },
        None => true,
    };
    let file = if same_on_all {
        join_path(&d, "all")
    } else if per_output_is_file {
        join_any(&d, &chars_of(output_name))
    } else {
        join_path(&d, "all")
    };
    string_of(file)
}

proof fn lemma_find_from_first(s: Seq<char>, pat: Seq<char>, i: int, k: int)
    requires
        0 <= i <= k,
        find_from(s, pat, i) matches Some(m) && k < m,
    ensures
        !occurs_at(s, pat, k),
    decreases k - i,
{
    if i < k {
        lemma_find_from_first(s, pat, i + 1, k);
    }
}

/// The path `content` names as its wallpaper source, if it has one.
pub open spec fn source_path(content: Seq<char>) -> Option<Seq<char>> {
    match source_span(content) {
        Some((a, b)) => Some(content.subrange(a, b)),
        None => None,
    }
}

proof fn lemma_replaced_span(content: Seq<char>, new_path: Seq<char>)
    requires
        source_span(content) is Some,
        !new_path.contains('"'),
    ensures
        ({
            let (a, b) = source_span(content).unwrap();
            let c2 = content.take(a) + new_path + content.skip(b);
            &&& 0 <= a <= b < content.len()
            &&& replaced(content, new_path) == Some(c2)
            &&& source_span(c2) == Some((a, a + new_path.len()))
        }),
{
    let marker = source_marker();
    let m = find_from(content, marker, 0).unwrap();
    let (a, b) = source_span(content).unwrap();
    lemma_find_from_found(content, marker, 0);
    lemma_find_char_found(content, '"', a);
    let c2 = content.take(a) + new_path + content.skip(b);
    assert(a == m + marker.len());
    assert forall|k: int| 0 <= k < m implies !occurs_at(c2, marker, k) by {
        lemma_find_from_first(content, marker, 0, k);
        assert(c2.subrange(k, k + marker.len()) =~= content.subrange(k, k + marker.len()));
    }
    assert(c2.subrange(m, m + marker.len()) =~= content.subrange(m, m + marker.len()));
    assert(occurs_at(c2, marker, m));
    lemma_find_from(c2, marker, 0, m);
    assert(find_from(c2, marker, 0) == Some(m));
    assert forall|k: int| a <= k < a + new_path.len() implies c2[k] != '"' by {
        assert(c2[k] == new_path[k - a]);
    }
    lemma_find_char_from(c2, '"', a, a + new_path.len());
    assert(c2[a + new_path.len()] == content[b]);
}

/// Reading back what was written: once the wallpaper source of `content` is
/// replaced by a path without `"`, the source the result names is that path.
pub proof fn lemma_replace_then_read(content: Seq<char>, new_path: Seq<char>)
    requires
        source_span(content) is Some,
        !new_path.contains('"'),
    ensures
        replaced(content, new_path) matches Some(c2) && source_path(c2) == Some(new_path),
{
    lemma_replaced_span(content, new_path);
    let (a, b) = source_span(content).unwrap();
    let c2 = content.take(a) + new_path + content.skip(b);
    assert(c2.subrange(a, a + new_path.len()) =~= new_path);
}

/// Restoring undoes the change: replacing the source with a path without
/// `"`, then replacing it again with the original source, gives back the
/// file exactly.
pub proof fn lemma_replace_then_restore(content: Seq<char>, new_path: Seq<char>)
    requires
        source_span(content) is Some,
        !new_path.contains('"'),
    ensures
        replaced(content, new_path) matches Some(c2) && replaced(c2, source_path(content).unwrap()) == Some(content),
{
    lemma_replaced_span(content, new_path);
    let (a, b) = source_span(content).unwrap();
    let c2 = content.take(a) + new_path + content.skip(b);
    let orig = content.subrange(a, b);
    assert(c2.take(a) + orig + c2.skip(a + new_path.len()) =~= content);
}

/// Where `cosmic-bg` keeps its configuration, relative to the home directory.
pub open spec fn bg_config_rel() -> Seq<char> {
    ".config/cosmic/com.system76.CosmicBackground/v1"@
}

/// `cosmic-bg`'s configuration directory under the home directory `home`
/// (an unknown home is taken as the empty path).
pub open spec fn bg_config_dir_under(home: Option<Seq<char>>) -> Seq<char> {
    path_join(
        match home {
            Some(h) => h,
            None => Seq::empty(),
        },
        bg_config_rel(),
    )
}

/// `cosmic-bg`'s configuration directory under the user's home directory.
pub fn config_dir() -> (r: String)
    ensures
        exists|home: Option<Seq<char>>| r@ == bg_config_dir_under(home),
{
    let home = crate::config::home_dir_string();
    let ghost hv: Option<Seq<char>> = if home is Some {
        Some(home->0@)
    } else {
        None
    };
    let h: Vec<char> = match &home {
        Some(h) => chars_of(h.as_str()),
        None => Vec::new(),
    };
    proof {
        if home is None {
            assert(h@ =~= Seq::<char>::empty());
        }
    }
    let r = string_of(join_path(&h, ".config/cosmic/com.system76.CosmicBackground/v1"));
    assert(r@ == bg_config_dir_under(hv));
    r
}

/// What was changed, so it can be restored exactly once the break ends.
pub struct WallpaperBackup {
    config_file: String,
    original_source: String,
}

impl WallpaperBackup {
    pub closed spec fn file(&self) -> Seq<char> {
        self.config_file@
    }

    pub closed spec fn source(&self) -> Seq<char> {
        self.original_source@
    }

    pub fn new(config_file: String, original_source: String) -> (b: Self)
        ensures
            b.file() == config_file@,
            b.source() == original_source@,
    {
        WallpaperBackup { config_file, original_source }
    }

    pub fn config_file(&self) -> (r: &str)
        ensures
            r@ == self.file(),
    {
        self.config_file.as_str()
    }

    pub fn original_source(&self) -> (r: &str)
        ensures
            r@ == self.source(),
    {
        self.original_source.as_str()
    }
}

} // verus!
