//! Reading the names of connected Wayland outputs out of `cosmic-randr list`.
use vstd::prelude::*;
use crate::ansi::{strip_ansi_codes, stripped};
use crate::text::{chars_of, string_of, lines, words, trim_start, split_lines, split_words, trim_start_chars, chars_eq};

verus! {

/// `input` with its ANSI escape sequences removed.
pub fn strip_ansi(input: &str) -> (r: String)
    ensures
        r@ == stripped(input@),
{
    strip_ansi_codes(input)
}

/// The output name a listing line names: lines that are indented (they are
/// properties of the current output block) or empty name nothing; any other
/// line names its first word.
pub open spec fn line_output_name(line: Seq<char>) -> Option<Seq<char>> {
    if trim_start(line) != line || trim_start(line).len() == 0 {
        None
    } else if words(line).len() > 0 {
        Some(words(line)[0])
    } else {
        None
    }
}

/// The output names in `cosmic-randr list` text, in order (ANSI codes are
/// removed first).
pub open spec fn output_names_in(text: Seq<char>) -> Seq<Seq<char>> {
    names_in_lines(lines(stripped(text)))
}

pub open spec fn names_in_lines(ls: Seq<Seq<char>>) -> Seq<Seq<char>>
    decreases ls.len(),
{
    if ls.len() == 0 {
        Seq::empty()
    } else {
        let rest = names_in_lines(ls.drop_last());
        match line_output_name(ls.last()) {
            Some(n) => rest.push(n),
            None => rest,
        }
    }
}

/// The names of the outputs a `cosmic-randr list` listing shows, e.g.
/// `["eDP-1", "HDMI-A-1"]`.
pub fn output_names(listing: &str) -> (r: Vec<String>)
    ensures
        r@.len() == output_names_in(listing@).len(),
        forall|k: int| 0 <= k < r@.len() ==> #[trigger] r@[k]@ == output_names_in(listing@)[k],
{
    let text = strip_ansi(listing);
    let v = chars_of(text.as_str());
    let ls = split_lines(&v);
    let ghost all = lines(v@);
    let mut out: Vec<String> = Vec::new();
    let mut i: usize = 0;
    while i < ls.len()
        invariant
            i <= ls@.len(),
            ls@.len() == all.len(),
            all == lines(stripped(listing@)),
            forall|k: int| 0 <= k < ls@.len() ==> #[trigger] ls@[k]@ == all[k],
            out@.len() == names_in_lines(all.take(i as int)).len(),
            forall|k: int| 0 <= k < out@.len() ==> #[trigger] out@[k]@ == names_in_lines(all.take(i as int))[k],
        decreases ls@.len() - i,
    {
        let line = &ls[i];
        let trimmed = trim_start_chars(line);
        let ghost before = out@;
        assert(all.take(i + 1).drop_last() =~= all.take(i as int));
        assert(all.take(i + 1).last() == line@);
        if chars_eq(&trimmed, line) && trimmed.len() > 0 {
            let ws = split_words(line);
            if ws.len() > 0 {
                let name = string_of(slice_all(&ws[0]));
                out.push(name);
                proof {
                    assert forall|k: int| 0 <= k < out@.len() implies #[trigger] out@[k]@ == names_in_lines(all.take(i + 1))[k] by {
                        if k < before.len() {
                            assert(out@[k] == before[k]);
                        }
                    }
                }
            }
        }
        i = i + 1;
    }
    assert(all.take(ls@.len() as int) =~= all);
    out
}

fn slice_all(v: &Vec<char>) -> (r: Vec<char>)
    ensures
        r@ == v@,
{
    let mut out: Vec<char> = Vec::new();
    crate::text::push_all(&mut out, v);
    out
}

} // verus!
