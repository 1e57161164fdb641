//! The diagnostic report: what a helper process printed, with its error output appended.

use vstd::prelude::*;

use crate::text::{chars_of, string_of, trim, trim_chars, trim_end};

verus! {

/// The heading put in front of the error output.
pub const STDERR_HEADING: &'static str = "PowerShell stderr:\n";

/// The report: the standard output, and, where the error output is not blank, a line break
/// if the standard output does not end with one, the heading, and the error output without
/// its trailing white space.
pub open spec fn merged_report(stdout: Seq<char>, stderr: Seq<char>) -> Seq<char> {
    if trim(stderr).len() == 0 {
        stdout
    } else {
        let gap = if stdout.len() > 0 && stdout.last() != '\n' {
            seq!['\n']
        } else {
            Seq::empty()
        };
        stdout + gap + STDERR_HEADING@ + trim_end(stderr)
    }
}

/// The characters of `s` without trailing white space.
pub fn trim_end_chars(s: &[char]) -> (r: Vec<char>)
    ensures
        r@ == trim_end(s@),
{
    let mut j: usize = s.len();
    assert(s@.take(j as int) == s@);
    while j > 0 && crate::text::is_whitespace_char(s[j - 1])
        invariant
            j <= s@.len(),
            trim_end(s@) == trim_end(s@.take(j as int)),
        decreases j,
    {
        assert(s@.take(j as int).drop_last() == s@.take(j - 1));
        j = j - 1;
    }
    assert(trim_end(s@) == s@.take(j as int));
    let mut r: Vec<char> = Vec::new();
    let mut k: usize = 0;
    while k < j
        invariant
            k <= j <= s@.len(),
            r@ == s@.take(k as int),
        decreases j - k,
    {
        r.push(s[k]);
        assert(s@.take(k + 1) == s@.take(k as int).push(s@[k as int]));
        k = k + 1;
    }
    r
}

/// Merges what a helper process printed on its standard output and its error output into
/// one report.
pub fn merge_process_output(stdout: &str, stderr: &str) -> (r: String)
    ensures
        r@ == merged_report(stdout@, stderr@),
{
    let err = chars_of(stderr);
    let trimmed = trim_chars(err.as_slice());
    if trimmed.len() == 0 {
        return string_of(chars_of(stdout).as_slice());
    }
    let mut text = chars_of(stdout);
    let ghost out = text@;
    if text.len() > 0 && text[text.len() - 1] != '\n' {
        text.push('\n');
    }
    let ghost gapped = text@;
    let heading = chars_of(STDERR_HEADING);
    let mut i: usize = 0;
    while i < heading.len()
        invariant
            i <= heading@.len(),
            text@ == gapped + heading@.take(i as int),
        decreases heading@.len() - i,
    {
        text.push(heading[i]);
        assert(heading@.take(i + 1) == heading@.take(i as int).push(heading@[i as int]));
        i = i + 1;
    }
    assert(heading@.take(heading@.len() as int) == heading@);
    let tail = trim_end_chars(err.as_slice());
    let ghost headed = text@;
    let mut k: usize = 0;
    while k < tail.len()
        invariant
            k <= tail@.len(),
            text@ == headed + tail@.take(k as int),
        decreases tail@.len() - k,
    {
        text.push(tail[k]);
        assert(tail@.take(k + 1) == tail@.take(k as int).push(tail@[k as int]));
        k = k + 1;
    }
    assert(tail@.take(tail@.len() as int) == tail@);
    proof {
        if out.len() > 0 && out.last() != '\n' {
            assert(gapped == out + seq!['\n']);
        } else {
            assert(gapped == out + Seq::<char>::empty());
        }
    }
    string_of(text.as_slice())
}

} // verus!
