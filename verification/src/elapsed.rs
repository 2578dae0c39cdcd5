//! How long ago a command was run, in a few characters.

use crate::text::{chars_of, pieces, replace, replaced, split, string_between, texts_view};
use vstd::prelude::*;
use vstd::string::*;

verus! {

/// The text that `humantime::format_duration` gives for this many seconds.
pub uninterp spec fn duration_text(seconds: nat) -> Seq<char>;

/// Calls `humantime::format_duration` on a duration of whole seconds and
/// takes the text that it displays. Believed of that call: the text depends
/// on the duration alone.
#[verifier::external_body]
fn format_duration(seconds: u64) -> (text: String)
    ensures
        text@ == duration_text(seconds as nat),
{
    humantime::format_duration(std::time::Duration::from_secs(seconds)).to_string()
}

/// A word of a duration with its unit cut short: `y` for years, `mo` for
/// months, `d` for days, `h` for hours, `m` for minutes, and `< 1m` for no
/// time at all.
pub open spec fn shortened(word: Seq<char>) -> Seq<char> {
    let a = replaced(word, "years"@, "y"@, 0);
    let b = replaced(a, "year"@, "y"@, 0);
    let c = replaced(b, "months"@, "mo"@, 0);
    let d = replaced(c, "month"@, "mo"@, 0);
    let e = replaced(d, "days"@, "d"@, 0);
    let f = replaced(e, "day"@, "d"@, 0);
    let g = replaced(f, "hours"@, "h"@, 0);
    let h = replaced(g, "hour"@, "h"@, 0);
    let i = replaced(h, "minutes"@, "m"@, 0);
    let j = replaced(i, "minute"@, "m"@, 0);
    replaced(j, "0s"@, "< 1m"@, 0)
}

/// The first two words of a duration, each cut short, with a space between
/// them.
pub open spec fn brief(text: Seq<char>) -> Seq<char> {
    let words = pieces(text, ' ');
    if words.len() >= 2 {
        shortened(words[0]) + seq![' '] + shortened(words[1])
    } else {
        shortened(words[0])
    }
}

/// The whole minutes from `tms` to `now`, as seconds.
pub open spec fn whole_minutes(tms: int, now: int) -> nat {
    ((now - tms) / 60 * 60) as nat
}

/// A word of a duration with its unit cut short.
pub fn shorten(word: &Vec<char>) -> (out: Vec<char>)
    ensures
        out@ == shortened(word@),
{
    let a = replace(word, &chars_of("years"), &chars_of("y"));
    let b = replace(&a, &chars_of("year"), &chars_of("y"));
    let c = replace(&b, &chars_of("months"), &chars_of("mo"));
    let d = replace(&c, &chars_of("month"), &chars_of("mo"));
    let e = replace(&d, &chars_of("days"), &chars_of("d"));
    let f = replace(&e, &chars_of("day"), &chars_of("d"));
    let g = replace(&f, &chars_of("hours"), &chars_of("h"));
    let h = replace(&g, &chars_of("hour"), &chars_of("h"));
    let i = replace(&h, &chars_of("minutes"), &chars_of("m"));
    let j = replace(&i, &chars_of("minute"), &chars_of("m"));
    replace(&j, &chars_of("0s"), &chars_of("< 1m"))
}

/// The first two words of a duration, each cut short.
pub fn abbreviate(text: &str) -> (out: String)
    ensures
        out@ == brief(text@),
{
    let words = split(&chars_of(text), ' ');
    let ghost all = texts_view(words@);
    let mut line = shorten(&words[0]);
    assert(all[0] == words@[0]@);
    if words.len() >= 2 {
        assert(all[1] == words@[1]@);
        let second = shorten(&words[1]);
        let ghost head = line@;
        line.push(' ');
        let mut k: usize = 0;
        while k < second.len()
            invariant
                k <= second.len(),
                line@ == head + seq![' '] + second@.take(k as int),
            decreases second.len() - k,
        {
            line.push(second[k]);
            proof {
                assert(second@.take(k + 1) =~= second@.take(k as int).push(second@[k as int]));
                assert(line@ =~= head + seq![' '] + second@.take(k + 1));
            }
            k += 1;
        }
        proof {
            assert(second@.take(second.len() as int) =~= second@);
        }
    }
    let out = string_between(&line, 0, line.len());
    proof {
        assert(line@.subrange(0, line.len() as int) =~= line@);
    }
    out
}

/// How long before `now` the time `tms` was: the two largest units of the
/// whole minutes between them.
pub fn explain(tms: i64, now: i64) -> (out: String)
    requires
        0 <= tms <= now,
    ensures
        out@ == brief(duration_text(whole_minutes(tms as int, now as int))),
{
    let minutes = ((now - tms) / 60) as u64;
    let text = format_duration(minutes * 60);
    abbreviate(text.as_str())
}

} // verus!
