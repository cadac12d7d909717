//! Characters, surrounding whitespace, prefixes and lines.
//!
//! Text is modelled as `Seq<char>`. The executable functions work on
//! `&[char]` and return sub-slices, so nothing is copied after the
//! characters have been read out of a string once.

use vstd::prelude::*;
use vstd::slice::slice_subrange;

verus! {

/// Whether `c` has the Unicode property `White_Space`.
pub open spec fn is_space(c: char) -> bool {
    let u = c as u32;
    ||| 0x09 <= u <= 0x0D
    ||| u == 0x20
    ||| u == 0x85
    ||| u == 0xA0
    ||| u == 0x1680
    ||| 0x2000 <= u <= 0x200A
    ||| u == 0x2028
    ||| u == 0x2029
    ||| u == 0x202F
    ||| u == 0x205F
    ||| u == 0x3000
}

/// How many characters at the front of `s` are whitespace.
pub open spec fn leading_spaces(s: Seq<char>) -> nat
    decreases s.len(),
{
    if s.len() > 0 && is_space(s[0]) {
        1 + leading_spaces(s.drop_first())
    } else {
        0
    }
}

/// How many characters at the back of `s` are whitespace.
pub open spec fn trailing_spaces(s: Seq<char>) -> nat
    decreases s.len(),
{
    if s.len() > 0 && is_space(s.last()) {
        1 + trailing_spaces(s.drop_last())
    } else {
        0
    }
}

/// `s` without the whitespace at its front and at its back.
pub open spec fn trimmed(s: Seq<char>) -> Seq<char> {
    let rest = s.skip(leading_spaces(s) as int);
    rest.take(rest.len() - trailing_spaces(rest))
}

/// Whether `s` holds nothing but whitespace.
pub open spec fn all_spaces(s: Seq<char>) -> bool {
    forall|i: int| 0 <= i < s.len() ==> is_space(#[trigger] s[i])
}

/// How many characters stand before the first line feed of `s`; all of them
/// where it has none.
pub open spec fn line_len(s: Seq<char>) -> nat
    decreases s.len(),
{
    if s.len() == 0 || s[0] == '\n' {
        0
    } else {
        1 + line_len(s.drop_first())
    }
}

/// The pieces of `s` between its line feeds. There is always at least one
/// piece: the empty text is one empty line, and a text that ends in a line
/// feed ends in an empty line.
pub open spec fn lines_of(s: Seq<char>) -> Seq<Seq<char>>
    decreases s.len(),
{
    let n = line_len(s) as int;
    if n >= s.len() {
        seq![s]
    } else {
        seq![s.take(n)] + lines_of(s.skip(n + 1))
    }
}

/// The texts that a sequence of slices holds.
pub open spec fn texts_of(slices: Seq<&[char]>) -> Seq<Seq<char>> {
    slices.map_values(|slice: &[char]| slice@)
}

/// `leading_spaces(s)` is the one `k` such that the first `k` characters are
/// whitespace and the next one, if any, is not.
pub proof fn lemma_leading_spaces(s: Seq<char>, k: int)
    requires
        0 <= k <= s.len(),
        forall|i: int| 0 <= i < k ==> is_space(#[trigger] s[i]),
        k < s.len() ==> !is_space(s[k]),
    ensures
        leading_spaces(s) == k,
    decreases k,
{
    if k > 0 {
        let rest = s.drop_first();
        assert forall|i: int| 0 <= i < k - 1 implies is_space(#[trigger] rest[i]) by {
            assert(rest[i] == s[i + 1]);
        }
        lemma_leading_spaces(rest, k - 1);
    }
}

/// `trailing_spaces(s)` is the one `k` such that the last `k` characters are
/// whitespace and the one before them, if any, is not.
pub proof fn lemma_trailing_spaces(s: Seq<char>, k: int)
    requires
        0 <= k <= s.len(),
        forall|i: int| s.len() - k <= i < s.len() ==> is_space(#[trigger] s[i]),
        k < s.len() ==> !is_space(s[s.len() - k - 1]),
    ensures
        trailing_spaces(s) == k,
    decreases k,
{
    if k > 0 {
        let rest = s.drop_last();
        assert forall|i: int| rest.len() - (k - 1) <= i < rest.len() implies is_space(
            #[trigger] rest[i],
        ) by {
            assert(rest[i] == s[i]);
        }
        lemma_trailing_spaces(rest, k - 1);
    }
}

/// Trimming cuts `s` down to the range from its first to its last character
/// that is not whitespace: `lo..hi` is that range where everything before `lo`
/// and from `hi` on is whitespace and the range is empty or has a character
/// other than whitespace at both ends.
pub proof fn lemma_trimmed_range(s: Seq<char>, lo: int, hi: int)
    requires
        0 <= lo <= hi <= s.len(),
        forall|i: int| 0 <= i < lo ==> is_space(#[trigger] s[i]),
        forall|i: int| hi <= i < s.len() ==> is_space(#[trigger] s[i]),
        lo < hi ==> !is_space(s[lo]) && !is_space(s[hi - 1]),
    ensures
        trimmed(s) == s.subrange(lo, hi),
{
    if lo == hi {
        // Nothing but whitespace: the front run takes it all.
        assert forall|i: int| 0 <= i < s.len() implies is_space(#[trigger] s[i]) by {
            if i >= lo {
                assert(hi <= i);
            }
        }
        lemma_leading_spaces(s, s.len() as int);
        let rest = s.skip(s.len() as int);
        assert(rest.len() == 0);
        assert(trailing_spaces(rest) == 0);
        assert(trimmed(s) =~= s.subrange(lo, hi));
    } else {
        lemma_leading_spaces(s, lo);
        let rest = s.skip(lo);
        let k = s.len() - hi;
        assert forall|i: int| rest.len() - k <= i < rest.len() implies is_space(
            #[trigger] rest[i],
        ) by {
            assert(rest[i] == s[i + lo]);
        }
        assert(rest[rest.len() - k - 1] == s[hi - 1]);
        lemma_trailing_spaces(rest, k);
        assert(trimmed(s) =~= s.subrange(lo, hi));
    }
}

/// `line_len(s)` is the one `k` such that no line feed stands among the
/// first `k` characters and the next one, if any, is a line feed.
pub proof fn lemma_line_len(s: Seq<char>, k: int)
    requires
        0 <= k <= s.len(),
        forall|i: int| 0 <= i < k ==> #[trigger] s[i] != '\n',
        k < s.len() ==> s[k] == '\n',
    ensures
        line_len(s) == k,
    decreases k,
{
    if k > 0 {
        let rest = s.drop_first();
        assert forall|i: int| 0 <= i < k - 1 implies #[trigger] rest[i] != '\n' by {
            assert(rest[i] == s[i + 1]);
        }
        lemma_line_len(rest, k - 1);
    }
}

/// Whether `c` is whitespace, as `char::is_whitespace` tells it.
pub fn is_whitespace(c: char) -> (b: bool)
    ensures
        b == is_space(c),
{
    let u: u32 = c as u32;
    (0x09 <= u && u <= 0x0D) || u == 0x20 || u == 0x85 || u == 0xA0 || u == 0x1680 || (0x2000 <= u
        && u <= 0x200A) || u == 0x2028 || u == 0x2029 || u == 0x202F || u == 0x205F || u == 0x3000
}

/// The characters of `s`, in order.
pub fn chars_of(s: &str) -> (v: Vec<char>)
    ensures
        v@ == s@,
{
    let mut v: Vec<char> = Vec::new();
    let mut it = s.chars();
    for c in iter: it
        invariant
            v@ == iter.seq().take(iter.index()),
    {
        v.push(c);
    }
    v
}

/// The part of `s` between its leading and its trailing whitespace.
pub fn trim(s: &[char]) -> (t: &[char])
    ensures
        t@ == trimmed(s@),
{
    let n = s.len();
    let mut lo: usize = 0;
    while lo < n && is_whitespace(s[lo])
        invariant
            lo <= n == s@.len(),
            forall|i: int| 0 <= i < lo ==> is_space(#[trigger] s@[i]),
        decreases n - lo,
    {
        lo += 1;
    }
    let mut hi: usize = n;
    while hi > lo && is_whitespace(s[hi - 1])
        invariant
            lo <= hi <= n == s@.len(),
            forall|i: int| hi <= i < n ==> is_space(#[trigger] s@[i]),
        decreases hi,
    {
        hi -= 1;
    }
    proof {
        lemma_trimmed_range(s@, lo as int, hi as int);
    }
    slice_subrange(s, lo, hi)
}

/// Whether `s` begins with the characters of `prefix`.
pub fn starts_with(s: &[char], prefix: &str) -> (b: bool)
    ensures
        b == prefix@.is_prefix_of(s@),
{
    let n = s.len();
    let mut i: usize = 0;
    let mut it = prefix.chars();
    for c in iter: it
        invariant
            n == s@.len(),
            iter.seq() == prefix@,
            i == iter.index() <= n,
            s@.take(i as int) == prefix@.take(i as int),
    {
        if i >= n || s[i] != c {
            proof {
                if i < n {
                    assert(s@[i as int] != prefix@[i as int]);
                    if prefix@.is_prefix_of(s@) {
                        assert(s@.subrange(0, prefix@.len() as int)[i as int] == prefix@[i as int]);
                    }
                }
            }
            return false;
        }
        proof {
            assert(s@.take(i + 1) =~= s@.take(i as int).push(s@[i as int]));
            assert(prefix@.take(i + 1) =~= prefix@.take(i as int).push(prefix@[i as int]));
        }
        i += 1;
    }
    proof {
        assert(prefix@.take(i as int) =~= prefix@);
        assert(s@.take(i as int) =~= s@.subrange(0, prefix@.len() as int));
    }
    true
}

/// The lines of `text`: its pieces between line feeds, each a sub-slice.
pub fn split_lines(text: &[char]) -> (lines: Vec<&[char]>)
    ensures
        texts_of(lines@) == lines_of(text@),
{
    let n = text.len();
    let mut lines: Vec<&[char]> = Vec::new();
    let mut start: usize = 0;
    proof {
        assert(text@.skip(0) =~= text@);
        assert(texts_of(lines@) + lines_of(text@) =~= lines_of(text@));
    }
    loop
        invariant_except_break
            start <= n == text@.len(),
            lines_of(text@) == texts_of(lines@) + lines_of(text@.skip(start as int)),
        ensures
            texts_of(lines@) == lines_of(text@),
        decreases n - start,
    {
        let mut end: usize = start;
        while end < n && text[end] != '\n'
            invariant
                start <= end <= n == text@.len(),
                forall|i: int| start <= i < end ==> #[trigger] text@[i] != '\n',
            decreases n - end,
        {
            end += 1;
        }
        let line = slice_subrange(text, start, end);
        let ghost before = lines@;
        let ghost rest = text@.skip(start as int);
        lines.push(line);
        proof {
            assert forall|i: int| 0 <= i < end - start implies #[trigger] rest[i] != '\n' by {
                assert(rest[i] == text@[start + i]);
            }
            lemma_line_len(rest, end - start);
            assert(texts_of(lines@) =~= texts_of(before) + seq![line@]);
            assert(rest.take(end - start) =~= line@);
        }
        if end == n {
            proof {
                assert(rest =~= line@);
                assert(lines_of(rest) =~= seq![line@]);
            }
            break ;
        }
        proof {
            assert(rest.skip(end - start + 1) =~= text@.skip(end + 1));
            assert(lines_of(text@) =~= texts_of(lines@) + lines_of(text@.skip(end + 1)));
        }
        start = end + 1;
    }
    lines
}

} // verus!
