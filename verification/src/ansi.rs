//! Removing ANSI escape sequences from command-line tool output.
use vstd::prelude::*;
use crate::text::{chars_of, string_of, is_ascii_alpha, is_ascii_alphabetic};

verus! {

/// What is left of `s` from position `i` on once escape sequences are
/// removed. An escape sequence is `ESC [` followed by everything up to and
/// including the next ASCII letter (or the end of the text); `skipping`
/// means one is in progress at `i`. An `ESC` not followed by `[` is kept.
pub open spec fn stripped_from(s: Seq<char>, i: int, skipping: bool) -> Seq<char>
    decreases s.len() - i,
{
    if i >= s.len() || i < 0 {
        Seq::empty()
    } else if skipping {
        stripped_from(s, i + 1, !is_ascii_alpha(s[i]))
    } else if s[i] == '\u{1b}' && i + 1 < s.len() && s[i + 1] == '[' {
        stripped_from(s, i + 2, true)
    } else {
        seq![s[i]] + stripped_from(s, i + 1, false)
    }
}

/// `s` with its ANSI escape sequences removed.
pub open spec fn stripped(s: Seq<char>) -> Seq<char> {
    stripped_from(s, 0, false)
}

/// Strips ANSI escape sequences (e.g. `\x1b[1m`) from CLI tool output so line
/// parsing doesn't have to account for color codes.
pub fn strip_ansi_codes(input: &str) -> (r: String)
    ensures
        r@ == stripped(input@),
{
    let v = chars_of(input);
    let mut out: Vec<char> = Vec::new();
    let mut i: usize = 0;
    let mut skipping = false;
    while i < v.len()
        invariant
            i <= v@.len(),
            out@ + stripped_from(v@, i as int, skipping) == stripped(v@),
        decreases v@.len() - i,
    {
        let c = v[i];
        if skipping {
            skipping = !is_ascii_alphabetic(c);
            i = i + 1;
        } else if c == '\u{1b}' && i + 1 < v.len() && v[i + 1] == '[' {
            skipping = true;
            i = i + 2;
        } else {
            let ghost before = out@;
            out.push(c);
            proof {
                assert(stripped_from(v@, i as int, false) == seq![c] + stripped_from(v@, i + 1, false));
                assert(out@ + stripped_from(v@, i + 1, false) =~= before + stripped_from(v@, i as int, false));
            }
            i = i + 1;
        }
    }
    assert(out@ =~= stripped(v@));
    string_of(out)
}

proof fn lemma_plain_from(s: Seq<char>, i: int)
    requires
        0 <= i <= s.len(),
        !s.contains('\u{1b}'),
    ensures
        stripped_from(s, i, false) == s.skip(i),
    decreases s.len() - i,
{
    if i < s.len() {
        lemma_plain_from(s, i + 1);
        assert(s[i] != '\u{1b}');
        assert(s.skip(i) =~= seq![s[i]] + s.skip(i + 1));
    } else {
        assert(s.skip(i) =~= Seq::<char>::empty());
    }
}

/// Text without an escape character comes through unchanged.
pub proof fn lemma_plain_text_untouched(s: Seq<char>)
    requires
        !s.contains('\u{1b}'),
    ensures
        stripped(s) == s,
{
    lemma_plain_from(s, 0);
    assert(s.skip(0) =~= s);
}

} // verus!
