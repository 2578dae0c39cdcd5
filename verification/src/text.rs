//! Plain operations on text: comparing, splitting, trimming and replacing,
//! pattern matching in the manner of SQL's `LIKE`, and finding where a
//! pattern occurs in a line.

use vstd::prelude::*;
use vstd::string::*;

verus! {

/// Calls `String::push`, which appends one scalar value.
#[verifier::external_body]
pub(crate) fn push_char(s: &mut String, c: char)
    ensures
        final(s)@ == old(s)@.push(c),
{
    s.push(c)
}

/// The text that the characters `chars[from..to]` spell.
pub fn string_between(chars: &Vec<char>, from: usize, to: usize) -> (s: String)
    requires
        from <= to <= chars.len(),
    ensures
        s@ == chars@.subrange(from as int, to as int),
{
    let mut s = String::new();
    let mut i: usize = from;
    while i < to
        invariant
            from <= i <= to <= chars.len(),
            s@ == chars@.subrange(from as int, i as int),
        decreases to - i,
    {
        push_char(&mut s, chars[i]);
        proof {
            assert(chars@.subrange(from as int, i + 1) =~= chars@.subrange(from as int, i as int).push(
                chars@[i as int],
            ));
        }
        i += 1;
    }
    s
}

/// The text that the characters `chars[from..]` spell.
pub fn string_of(chars: &Vec<char>, from: usize) -> (s: String)
    requires
        from <= chars.len(),
    ensures
        s@ == chars@.skip(from as int),
{
    let s = string_between(chars, from, chars.len());
    proof {
        assert(chars@.subrange(from as int, chars.len() as int) =~= chars@.skip(from as int));
    }
    s
}

/// The characters of `s`.
pub fn chars_of(s: &str) -> (v: Vec<char>)
    ensures
        v@ == s@,
{
    let mut v: Vec<char> = Vec::new();
    for c in it: s.chars()
        invariant
            v@ == it.seq().take(it.index() as int),
            it.seq() == s@,
    {
        v.push(c);
        proof {
            assert(it.seq().take(it.index() + 1) =~= it.seq().take(it.index() as int).push(c));
        }
    }
    proof {
        assert(s@.take(s@.len() as int) =~= s@);
    }
    v
}

/// Are the two lists of characters the same?
pub fn same_chars(a: &Vec<char>, b: &Vec<char>) -> (r: bool)
    ensures
        r == (a@ == b@),
{
    if a.len() != b.len() {
        return false;
    }
    let mut i: usize = 0;
    while i < a.len()
        invariant
            a.len() == b.len(),
            i <= a.len(),
            a@.take(i as int) == b@.take(i as int),
        decreases a.len() - i,
    {
        if a[i] != b[i] {
            return false;
        }
        proof {
            assert(a@.take(i + 1) =~= a@.take(i as int).push(a@[i as int]));
            assert(b@.take(i + 1) =~= b@.take(i as int).push(b@[i as int]));
        }
        i += 1;
    }
    proof {
        assert(a@.take(a.len() as int) =~= a@);
        assert(b@.take(b.len() as int) =~= b@);
    }
    true
}

/// Does `text` begin with `prefix`?
pub open spec fn begins_with(text: Seq<char>, prefix: Seq<char>) -> bool {
    prefix.len() <= text.len() && text.take(prefix.len() as int) == prefix
}

/// Does `text` begin with `prefix`?
pub fn starts_with(text: &Vec<char>, prefix: &Vec<char>) -> (r: bool)
    ensures
        r == begins_with(text@, prefix@),
{
    if prefix.len() > text.len() {
        return false;
    }
    let mut i: usize = 0;
    while i < prefix.len()
        invariant
            prefix.len() <= text.len(),
            i <= prefix.len(),
            text@.take(i as int) == prefix@.take(i as int),
        decreases prefix.len() - i,
    {
        if text[i] != prefix[i] {
            proof {
                assert(text@.take(prefix.len() as int)[i as int] != prefix@[i as int]);
            }
            return false;
        }
        proof {
            assert(text@.take(i + 1) =~= text@.take(i as int).push(text@[i as int]));
            assert(prefix@.take(i + 1) =~= prefix@.take(i as int).push(prefix@[i as int]));
        }
        i += 1;
    }
    proof {
        assert(prefix@.take(prefix.len() as int) =~= prefix@);
    }
    true
}

/// An upper-case letter of ASCII.
pub open spec fn is_upper(c: char) -> bool {
    'A' <= c && c <= 'Z'
}

/// The two characters are the same, or the same ASCII letter in different
/// case. `LIKE` compares single characters so.
pub open spec fn same_letter(a: char, b: char) -> bool {
    ||| a == b
    ||| (is_upper(a) && a as u32 + 32 == b as u32)
    ||| (is_upper(b) && b as u32 + 32 == a as u32)
}

/// Does `pattern[..i]` match the whole of `text[..t]`, `%` standing for any
/// run of characters and `_` for any one?
pub open spec fn like_prefix(pattern: Seq<char>, text: Seq<char>, i: int, t: int) -> bool
    decreases i, t,
{
    if i <= 0 {
        t == 0
    } else if pattern[i - 1] == '%' {
        like_prefix(pattern, text, i - 1, t) || (t > 0 && like_prefix(pattern, text, i, t - 1))
    } else if t <= 0 {
        false
    } else if pattern[i - 1] == '_' {
        like_prefix(pattern, text, i - 1, t - 1)
    } else {
        same_letter(pattern[i - 1], text[t - 1]) && like_prefix(pattern, text, i - 1, t - 1)
    }
}

/// `text LIKE pattern`, without an escape character.
pub open spec fn like(pattern: Seq<char>, text: Seq<char>) -> bool {
    like_prefix(pattern, text, pattern.len() as int, text.len() as int)
}

/// `pattern` between two `%`: the pattern that asks for `pattern` anywhere
/// in a text.
pub open spec fn anywhere_pattern(pattern: Seq<char>) -> Seq<char> {
    seq!['%'] + pattern + seq!['%']
}

fn letter_matches(a: char, b: char) -> (r: bool)
    ensures
        r == same_letter(a, b),
{
    a == b || (a >= 'A' && a <= 'Z' && a as u32 + 32 == b as u32) || (b >= 'A' && b <= 'Z' && b as u32
        + 32 == a as u32)
}

/// `text LIKE pattern`.
pub fn like_match(pattern: &Vec<char>, text: &Vec<char>) -> (r: bool)
    ensures
        r == like(pattern@, text@),
{
    let m = text.len();
    // `zero` is like_prefix(.., i, 0); `row[t - 1]` is like_prefix(.., i, t).
    let mut zero = true;
    let mut row: Vec<bool> = Vec::new();
    let mut t: usize = 0;
    while t < m
        invariant
            t <= m,
            row.len() == t,
            forall|k: int| 0 <= k < t ==> row@[k] == like_prefix(pattern@, text@, 0, k + 1),
        decreases m - t,
    {
        row.push(false);
        t += 1;
    }
    let mut i: usize = 0;
    while i < pattern.len()
        invariant
            m == text.len(),
            i <= pattern.len(),
            row.len() == m,
            zero == like_prefix(pattern@, text@, i as int, 0),
            forall|k: int| 0 <= k < m ==> row@[k] == like_prefix(pattern@, text@, i as int, k + 1),
        decreases pattern.len() - i,
    {
        let p = pattern[i];
        let next_zero = p == '%' && zero;
        let mut next: Vec<bool> = Vec::new();
        let mut t: usize = 0;
        while t < m
            invariant
                m == text.len(),
                i < pattern.len(),
                p == pattern@[i as int],
                row.len() == m,
                t <= m,
                next.len() == t,
                zero == like_prefix(pattern@, text@, i as int, 0),
                next_zero == like_prefix(pattern@, text@, i + 1, 0),
                forall|k: int|
                    0 <= k < m ==> row@[k] == like_prefix(pattern@, text@, i as int, k + 1),
                forall|k: int|
                    0 <= k < t ==> next@[k] == like_prefix(pattern@, text@, i + 1, k + 1),
            decreases m - t,
        {
            let below_old = if t == 0 {
                zero
            } else {
                row[t - 1]
            };
            let below_new = if t == 0 {
                next_zero
            } else {
                next[t - 1]
            };
            let value = if p == '%' {
                row[t] || below_new
            } else if p == '_' {
                below_old
            } else {
                letter_matches(p, text[t]) && below_old
            };
            next.push(value);
            t += 1;
        }
        row = next;
        zero = next_zero;
        i += 1;
    }
    if m == 0 {
        zero
    } else {
        row[m - 1]
    }
}

/// `text LIKE '%' || pattern || '%'`.
pub fn like_anywhere(pattern: &Vec<char>, text: &Vec<char>) -> (r: bool)
    ensures
        r == like(anywhere_pattern(pattern@), text@),
{
    let mut whole: Vec<char> = Vec::new();
    whole.push('%');
    let mut i: usize = 0;
    while i < pattern.len()
        invariant
            i <= pattern.len(),
            whole@ == seq!['%'] + pattern@.take(i as int),
        decreases pattern.len() - i,
    {
        whole.push(pattern[i]);
        proof {
            assert(pattern@.take(i + 1) =~= pattern@.take(i as int).push(pattern@[i as int]));
            assert(whole@ =~= seq!['%'] + pattern@.take(i + 1));
        }
        i += 1;
    }
    whole.push('%');
    proof {
        assert(pattern@.take(pattern.len() as int) =~= pattern@);
        assert(whole@ =~= anywhere_pattern(pattern@));
    }
    like_match(&whole, text)
}

/// Does `pattern` stand in `text` at `at`?
pub open spec fn occurs_at(text: Seq<u8>, pattern: Seq<u8>, at: int) -> bool {
    0 <= at && at + pattern.len() <= text.len() && text.subrange(at, at + pattern.len())
        == pattern
}

/// The places where `pattern` stands in `text`, found from left to right
/// from `from` on, none overlapping the one before it. Each place is the
/// offset of its first byte and the offset behind its last. An empty pattern
/// stands nowhere.
pub open spec fn occurrences(text: Seq<u8>, pattern: Seq<u8>, from: int) -> Seq<(int, int)>
    decreases text.len() - from,
{
    if pattern.len() == 0 || from < 0 || from + pattern.len() > text.len() {
        Seq::empty()
    } else if occurs_at(text, pattern, from) {
        seq![(from, from + pattern.len())] + occurrences(text, pattern, from + pattern.len())
    } else {
        occurrences(text, pattern, from + 1)
    }
}

/// The bounds as plain values.
pub open spec fn bounds_of(found: Seq<(usize, usize)>) -> Seq<(int, int)> {
    Seq::new(found.len(), |i: int| (found[i].0 as int, found[i].1 as int))
}

/// Does `pattern` stand in `text` at `at`?
pub fn matches_at(text: &[u8], pattern: &[u8], at: usize) -> (r: bool)
    requires
        at + pattern@.len() <= text@.len(),
    ensures
        r == occurs_at(text@, pattern@, at as int),
{
    let n = text.len();
    let mut k: usize = 0;
    while k < pattern.len()
        invariant
            n == text@.len(),
            at + pattern@.len() <= text@.len(),
            k <= pattern@.len(),
            text@.subrange(at as int, at + k) == pattern@.take(k as int),
        decreases pattern.len() - k,
    {
        if text[at + k] != pattern[k] {
            proof {
                assert(text@.subrange(at as int, at + pattern@.len())[k as int] != pattern@[k as int]);
            }
            return false;
        }
        proof {
            assert(text@.subrange(at as int, at + k + 1) =~= text@.subrange(at as int, at + k).push(
                text@[at + k],
            ));
            assert(pattern@.take(k + 1) =~= pattern@.take(k as int).push(pattern@[k as int]));
        }
        k += 1;
    }
    proof {
        assert(pattern@.take(pattern@.len() as int) =~= pattern@);
    }
    true
}

/// All the places where `pattern` stands in `text`.
pub fn match_bounds(text: &[u8], pattern: &[u8]) -> (found: Vec<(usize, usize)>)
    ensures
        bounds_of(found@) == occurrences(text@, pattern@, 0),
{
    let mut found: Vec<(usize, usize)> = Vec::new();
    let n = text.len();
    let m = pattern.len();
    if m == 0 || m > n {
        proof {
            assert(bounds_of(found@) =~= Seq::<(int, int)>::empty());
        }
        return found;
    }
    let mut at: usize = 0;
    proof {
        assert(bounds_of(found@) + occurrences(text@, pattern@, 0) =~= occurrences(
            text@,
            pattern@,
            0,
        ));
    }
    while at <= n - m
        invariant
            n == text@.len(),
            m == pattern@.len(),
            0 < m <= n,
            at <= n,
            bounds_of(found@) + occurrences(text@, pattern@, at as int) == occurrences(
                text@,
                pattern@,
                0,
            ),
        decreases n - at,
    {
        if matches_at(text, pattern, at) {
            let ghost before = bounds_of(found@);
            found.push((at, at + m));
            proof {
                assert(bounds_of(found@) =~= before.push((at as int, at + m)));
                assert(bounds_of(found@) + occurrences(text@, pattern@, at + m) =~= before
                    + occurrences(text@, pattern@, at as int));
            }
            at = at + m;
        } else {
            at = at + 1;
        }
    }
    proof {
        assert(occurrences(text@, pattern@, at as int) =~= Seq::<(int, int)>::empty());
        assert(bounds_of(found@) + Seq::<(int, int)>::empty() =~= bounds_of(found@));
    }
    found
}

/// `place` lies inside `text` at or after `from` and holds `pattern`.
pub open spec fn is_place(text: Seq<u8>, pattern: Seq<u8>, from: int, place: (int, int)) -> bool {
    &&& from <= place.0 < place.1 <= text.len()
    &&& place.1 - place.0 == pattern.len()
    &&& occurs_at(text, pattern, place.0)
}

/// What `occurrences` finds: each place holds the pattern and lies inside
/// the text, and the places follow one another without overlap.
pub proof fn lemma_occurrences(text: Seq<u8>, pattern: Seq<u8>, from: int)
    requires
        0 <= from,
    ensures
        forall|k: int|
            0 <= k < occurrences(text, pattern, from).len() ==> is_place(
                text,
                pattern,
                from,
                #[trigger] occurrences(text, pattern, from)[k],
            ),
        forall|j: int, k: int|
            0 <= j < k < occurrences(text, pattern, from).len() ==> (#[trigger] occurrences(
                text,
                pattern,
                from,
            )[j]).1 <= (#[trigger] occurrences(text, pattern, from)[k]).0,
    decreases text.len() - from,
{
    let found = occurrences(text, pattern, from);
    if pattern.len() == 0 || from + pattern.len() > text.len() {
        assert(found.len() == 0);
    } else if occurs_at(text, pattern, from) {
        let rest = occurrences(text, pattern, from + pattern.len());
        lemma_occurrences(text, pattern, from + pattern.len());
        assert(found =~= seq![(from, from + pattern.len())] + rest);
        assert forall|k: int| 0 <= k < found.len() implies is_place(
            text,
            pattern,
            from,
            #[trigger] found[k],
        ) by {
            if k > 0 {
                assert(found[k] == rest[k - 1]);
                assert(is_place(text, pattern, from + pattern.len(), rest[k - 1]));
            }
        }
        assert forall|j: int, k: int| 0 <= j < k < found.len() implies (#[trigger] found[j]).1 <= (
        #[trigger] found[k]).0 by {
            assert(found[k] == rest[k - 1]);
            assert(is_place(text, pattern, from + pattern.len(), rest[k - 1]));
            if j > 0 {
                assert(found[j] == rest[j - 1]);
            }
        }
    } else {
        let rest = occurrences(text, pattern, from + 1);
        lemma_occurrences(text, pattern, from + 1);
        assert(found == rest);
        assert forall|k: int| 0 <= k < found.len() implies is_place(
            text,
            pattern,
            from,
            #[trigger] found[k],
        ) by {
            assert(is_place(text, pattern, from + 1, rest[k]));
        }
    }
}

/// A pattern that stands somewhere at or after `from` is found: the list is
/// not empty.
pub proof fn lemma_occurrence_found(text: Seq<u8>, pattern: Seq<u8>, from: int, at: int)
    requires
        0 <= from <= at,
        pattern.len() > 0,
        occurs_at(text, pattern, at),
    ensures
        occurrences(text, pattern, from).len() > 0,
    decreases at - from,
{
    if occurs_at(text, pattern, from) {
    } else {
        lemma_occurrence_found(text, pattern, from + 1, at);
    }
}

/// A leading `%` matches any beginning of the text.
pub proof fn lemma_like_head(pattern: Seq<char>, text: Seq<char>, t: int)
    requires
        pattern.len() > 0,
        pattern[0] == '%',
        0 <= t,
    ensures
        like_prefix(pattern, text, 1, t),
    decreases t,
{
    if t > 0 {
        lemma_like_head(pattern, text, t - 1);
    } else {
        assert(like_prefix(pattern, text, 0, 0));
    }
}

/// Where the pattern `inner` stands in `text` at `at`, the first `j`
/// characters of it, behind a `%`, match the text up to there.
pub proof fn lemma_like_body(inner: Seq<char>, text: Seq<char>, at: int, j: int)
    requires
        0 <= at,
        at + inner.len() <= text.len(),
        text.subrange(at, at + inner.len()) == inner,
        0 <= j <= inner.len(),
    ensures
        like_prefix(anywhere_pattern(inner), text, 1 + j, at + j),
    decreases j,
{
    let whole = anywhere_pattern(inner);
    if j == 0 {
        lemma_like_head(whole, text, at);
    } else {
        lemma_like_body(inner, text, at, j - 1);
        assert(whole[j] == inner[j - 1]);
        assert(text.subrange(at, at + inner.len())[j - 1] == text[at + j - 1]);
        if whole[j] == '%' {
            assert(like_prefix(whole, text, 1 + j, at + j - 1));
        }
    }
}

/// A closing `%` matches any rest of the text.
pub proof fn lemma_like_tail(pattern: Seq<char>, text: Seq<char>, from: int, t: int)
    requires
        pattern.len() > 0,
        pattern[pattern.len() - 1] == '%',
        0 <= from <= t,
        like_prefix(pattern, text, pattern.len() - 1, from),
    ensures
        like_prefix(pattern, text, pattern.len() as int, t),
    decreases t - from,
{
    if t > from {
        lemma_like_tail(pattern, text, from, t - 1);
    }
}

/// A text in which `inner` stands is `LIKE` `inner` with `%` on both sides,
/// whatever characters `inner` is made of.
pub proof fn lemma_like_contains(inner: Seq<char>, text: Seq<char>, at: int)
    requires
        0 <= at,
        at + inner.len() <= text.len(),
        text.subrange(at, at + inner.len()) == inner,
    ensures
        like(anywhere_pattern(inner), text),
{
    let whole = anywhere_pattern(inner);
    lemma_like_body(inner, text, at, inner.len() as int);
    lemma_like_tail(whole, text, at + inner.len(), text.len() as int);
}

/// The first `i` characters of a text match themselves.
pub proof fn lemma_like_self_upto(text: Seq<char>, i: int)
    requires
        0 <= i <= text.len(),
    ensures
        like_prefix(text, text, i, i),
    decreases i,
{
    if i > 0 {
        lemma_like_self_upto(text, i - 1);
        if text[i - 1] == '%' {
            assert(like_prefix(text, text, i, i - 1));
        }
    }
}

/// Every text is `LIKE` itself.
pub proof fn lemma_like_self(text: Seq<char>)
    ensures
        like(text, text),
{
    lemma_like_self_upto(text, text.len() as int);
}

/// The bytes of two texts laid end to end are the bytes of the one behind
/// the bytes of the other.
pub proof fn lemma_encode_concat(a: Seq<char>, b: Seq<char>)
    ensures
        vstd::utf8::encode_utf8(a + b) == vstd::utf8::encode_utf8(a) + vstd::utf8::encode_utf8(b),
    decreases a.len(),
{
    if a.len() == 0 {
        assert(a + b =~= b);
        assert(vstd::utf8::encode_utf8(a) + vstd::utf8::encode_utf8(b) =~= vstd::utf8::encode_utf8(b));
    } else {
        lemma_encode_concat(a.drop_first(), b);
        assert((a + b).drop_first() =~= a.drop_first() + b);
        assert((a + b)[0] == a[0]);
        assert(vstd::utf8::encode_utf8(a + b) =~= vstd::utf8::encode_utf8(a) + vstd::utf8::encode_utf8(
            b,
        ));
    }
}

/// The bytes of the first characters of a text stand at the start of the
/// bytes of the text, and there is at least one of them.
pub proof fn lemma_prefix_occurs(text: Seq<char>, k: int)
    requires
        1 <= k <= text.len(),
    ensures
        vstd::utf8::encode_utf8(text.take(k)).len() > 0,
        occurs_at(vstd::utf8::encode_utf8(text), vstd::utf8::encode_utf8(text.take(k)), 0),
{
    let head = text.take(k);
    let tail = text.skip(k);
    assert(text =~= head + tail);
    lemma_encode_concat(head, tail);
    let bytes = vstd::utf8::encode_utf8(head);
    assert((bytes + vstd::utf8::encode_utf8(tail)).subrange(0, bytes.len() as int) =~= bytes);
    assert(vstd::utf8::encode_scalar(head[0] as u32).len() > 0);
}

/// The characters that have the Unicode property White_Space.
pub open spec fn is_white_space(c: char) -> bool {
    ||| ('\u{9}' <= c && c <= '\u{d}')
    ||| c == ' '
    ||| c == '\u{85}'
    ||| c == '\u{a0}'
    ||| c == '\u{1680}'
    ||| ('\u{2000}' <= c && c <= '\u{200a}')
    ||| c == '\u{2028}'
    ||| c == '\u{2029}'
    ||| c == '\u{202f}'
    ||| c == '\u{205f}'
    ||| c == '\u{3000}'
}

/// Calls `char::is_whitespace`, which says whether the character has the
/// Unicode property White_Space. Believed of that call: it holds of the
/// characters that `is_white_space` lists, which are the characters of that
/// property, and of no other.
#[verifier::external_body]
fn is_whitespace(c: char) -> (r: bool)
    ensures
        r == is_white_space(c),
{
    c.is_whitespace()
}

/// Which characters of the line are white space.
pub open spec fn marks_of(line: Seq<char>) -> Seq<bool> {
    Seq::new(line.len(), |i: int| is_white_space(line[i]))
}

/// Index of the first mark at or after `from` that is not set, or the
/// number of marks.
pub open spec fn first_clear(white: Seq<bool>, from: int) -> int
    decreases white.len() - from,
{
    if from < 0 || from >= white.len() {
        white.len() as int
    } else if !white[from] {
        from
    } else {
        first_clear(white, from + 1)
    }
}

/// The end of the marks when the set marks before `to` are left out, but
/// not before `from`.
pub open spec fn last_clear(white: Seq<bool>, from: int, to: int) -> int
    decreases to,
{
    if to <= from || to <= 0 || to > white.len() {
        from
    } else if !white[to - 1] {
        to
    } else {
        last_clear(white, from, to - 1)
    }
}

/// The line without the marked characters at its two ends.
pub open spec fn trimmed_by(line: Seq<char>, white: Seq<bool>) -> Seq<char> {
    let from = first_clear(white, 0);
    line.subrange(from, last_clear(white, from, white.len() as int))
}

/// The line without the white space at its two ends.
pub open spec fn trimmed(line: Seq<char>) -> Seq<char> {
    trimmed_by(line, marks_of(line))
}

/// Which characters of the line are white space.
pub fn white_marks(line: &Vec<char>) -> (white: Vec<bool>)
    ensures
        white@ == marks_of(line@),
{
    let mut white: Vec<bool> = Vec::new();
    let mut i: usize = 0;
    while i < line.len()
        invariant
            i <= line.len(),
            white@ == marks_of(line@).take(i as int),
        decreases line.len() - i,
    {
        white.push(is_whitespace(line[i]));
        proof {
            assert(marks_of(line@).take(i + 1) =~= marks_of(line@).take(i as int).push(
                marks_of(line@)[i as int],
            ));
        }
        i += 1;
    }
    proof {
        assert(marks_of(line@).take(line.len() as int) =~= marks_of(line@));
    }
    white
}

/// The line without the marked characters at its two ends.
pub fn trim_marked(line: &Vec<char>, white: &Vec<bool>) -> (out: String)
    requires
        white.len() == line.len(),
    ensures
        out@ == trimmed_by(line@, white@),
{
    let n = line.len();
    let mut from: usize = 0;
    while from < n && white[from]
        invariant
            from <= n == line.len(),
            n == white.len(),
            first_clear(white@, 0) == first_clear(white@, from as int),
        decreases n - from,
    {
        from += 1;
    }
    let mut to: usize = n;
    while to > from && white[to - 1]
        invariant
            from <= to <= n == line.len(),
            n == white.len(),
            last_clear(white@, from as int, n as int) == last_clear(white@, from as int, to as int),
        decreases to,
    {
        to -= 1;
    }
    string_between(line, from, to)
}

/// The line without the white space at its two ends.
pub fn trim(line: &Vec<char>) -> (out: String)
    ensures
        out@ == trimmed(line@),
{
    let white = white_marks(line);
    trim_marked(line, &white)
}

/// Is one of the marks not set?
pub fn any_clear(white: &Vec<bool>) -> (r: bool)
    ensures
        r == exists|i: int| 0 <= i < white@.len() && !#[trigger] white@[i],
{
    let mut i: usize = 0;
    while i < white.len()
        invariant
            i <= white.len(),
            forall|k: int| 0 <= k < i ==> #[trigger] white@[k],
        decreases white.len() - i,
    {
        if !white[i] {
            return true;
        }
        i += 1;
    }
    false
}

/// Does `needle` stand in `text` at `at`?
pub open spec fn stands_at(text: Seq<char>, needle: Seq<char>, at: int) -> bool {
    0 <= at && at + needle.len() <= text.len() && text.subrange(at, at + needle.len()) == needle
}

/// The pieces of a text: what stands between the separators in it.
pub open spec fn pieces(text: Seq<char>, separator: char) -> Seq<Seq<char>>
    decreases text.len(),
{
    if text.len() == 0 {
        seq![Seq::empty()]
    } else {
        let before = pieces(text.drop_last(), separator);
        if text.last() == separator {
            before.push(Seq::empty())
        } else {
            before.drop_last().push(before.last().push(text.last()))
        }
    }
}

/// A list of strings as plain values.
pub open spec fn strings_view(list: Seq<String>) -> Seq<Seq<char>> {
    Seq::new(list.len(), |i: int| list[i]@)
}

/// A list of texts as plain values.
pub open spec fn texts_view(lines: Seq<Vec<char>>) -> Seq<Seq<char>> {
    Seq::new(lines.len(), |i: int| lines[i]@)
}

/// The pieces of the text.
pub fn split(chars: &Vec<char>, separator: char) -> (found: Vec<Vec<char>>)
    ensures
        texts_view(found@) == pieces(chars@, separator),
        found@.len() >= 1,
{
    let mut found: Vec<Vec<char>> = Vec::new();
    let mut current: Vec<char> = Vec::new();
    let mut i: usize = 0;
    proof {
        assert(chars@.take(0) =~= Seq::<char>::empty());
        assert(texts_view(found@).push(current@) =~= pieces(chars@.take(0), separator));
    }
    while i < chars.len()
        invariant
            i <= chars.len(),
            texts_view(found@).push(current@) == pieces(chars@.take(i as int), separator),
        decreases chars.len() - i,
    {
        let ghost done = texts_view(found@);
        let ghost open = current@;
        proof {
            assert(chars@.take(i + 1).drop_last() =~= chars@.take(i as int));
            assert(done.push(open).drop_last() =~= done);
        }
        if chars[i] == separator {
            found.push(current);
            current = Vec::new();
            proof {
                assert(texts_view(found@) =~= done.push(open));
            }
        } else {
            current.push(chars[i]);
        }
        i += 1;
    }
    let ghost done = texts_view(found@);
    found.push(current);
    proof {
        assert(chars@.take(chars.len() as int) =~= chars@);
        assert(texts_view(found@) =~= done.push(current@));
    }
    found
}

/// The text from `at` on with `to` in the place of every `from`, found from
/// left to right, none overlapping the one before it. An empty `from` stands
/// nowhere.
pub open spec fn replaced(text: Seq<char>, from: Seq<char>, to: Seq<char>, at: int) -> Seq<char>
    decreases text.len() - at,
{
    if at < 0 || at >= text.len() {
        Seq::empty()
    } else if from.len() > 0 && stands_at(text, from, at) {
        to + replaced(text, from, to, at + from.len())
    } else {
        seq![text[at]] + replaced(text, from, to, at + 1)
    }
}

/// Does `needle` stand in `text` at `at`?
pub fn stands(text: &Vec<char>, needle: &Vec<char>, at: usize) -> (r: bool)
    requires
        at <= text.len(),
    ensures
        r == stands_at(text@, needle@, at as int),
{
    let n = text.len();
    let m = needle.len();
    if m > n - at {
        return false;
    }
    let mut k: usize = 0;
    while k < m
        invariant
            n == text.len(),
            m == needle.len(),
            at + m <= n,
            k <= m,
            text@.subrange(at as int, at + k) == needle@.take(k as int),
        decreases m - k,
    {
        if text[at + k] != needle[k] {
            proof {
                assert(text@.subrange(at as int, at + m)[k as int] != needle@[k as int]);
            }
            return false;
        }
        proof {
            assert(text@.subrange(at as int, at + k + 1) =~= text@.subrange(at as int, at + k).push(
                text@[at + k],
            ));
            assert(needle@.take(k + 1) =~= needle@.take(k as int).push(needle@[k as int]));
        }
        k += 1;
    }
    proof {
        assert(needle@.take(m as int) =~= needle@);
    }
    true
}

/// The text with `to` in the place of every `from`.
pub fn replace(text: &Vec<char>, from: &Vec<char>, to: &Vec<char>) -> (out: Vec<char>)
    ensures
        out@ == replaced(text@, from@, to@, 0),
{
    let n = text.len();
    let mut out: Vec<char> = Vec::new();
    let mut at: usize = 0;
    proof {
        assert(out@ + replaced(text@, from@, to@, 0) =~= replaced(text@, from@, to@, 0));
    }
    while at < n
        invariant
            n == text.len(),
            at <= n,
            out@ + replaced(text@, from@, to@, at as int) == replaced(text@, from@, to@, 0),
        decreases n - at,
    {
        let ghost before = out@;
        if from.len() > 0 && stands(text, from, at) {
            let mut k: usize = 0;
            while k < to.len()
                invariant
                    k <= to.len(),
                    out@ == before + to@.take(k as int),
                decreases to.len() - k,
            {
                out.push(to[k]);
                proof {
                    assert(to@.take(k + 1) =~= to@.take(k as int).push(to@[k as int]));
                    assert(out@ =~= before + to@.take(k + 1));
                }
                k += 1;
            }
            proof {
                assert(to@.take(to.len() as int) =~= to@);
                assert(out@ + replaced(text@, from@, to@, at + from.len()) =~= before + (to@
                    + replaced(text@, from@, to@, at + from.len())));
            }
            at = at + from.len();
        } else {
            out.push(text[at]);
            proof {
                assert(out@ + replaced(text@, from@, to@, at + 1) =~= before + (seq![
                    text@[at as int],
                ] + replaced(text@, from@, to@, at + 1)));
            }
            at = at + 1;
        }
    }
    proof {
        assert(out@ + Seq::<char>::empty() =~= out@);
    }
    out
}

} // verus!
