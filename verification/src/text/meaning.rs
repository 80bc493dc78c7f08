//! What trimming and folding do to a text.
use vstd::prelude::*;
use crate::text;

verus! {

/// A sequence of white space alone.
pub open spec fn blank(s: Seq<char>) -> bool {
    forall|i: int| 0 <= i < s.len() ==> text::is_white(#[trigger] s[i])
}

proof fn lemma_trim_start(s: Seq<char>) -> (n: int)
    ensures
        0 <= n <= s.len(),
        blank(s.take(n)),
        text::trim_start(s) == s.skip(n),
        n < s.len() ==> !text::is_white(s[n]),
    decreases s.len(),
{
    if s.len() > 0 && text::is_white(s[0]) {
        let m = lemma_trim_start(s.skip(1));
        assert(s.skip(1).skip(m) =~= s.skip(m + 1));
        assert forall|i: int| 0 <= i < m + 1 implies text::is_white(#[trigger] s.take(m + 1)[i]) by {
            if i > 0 {
                assert(s.skip(1).take(m)[i - 1] == s[i]);
            }
        }
        m + 1
    } else {
        assert(s.skip(0) =~= s);
        0
    }
}

proof fn lemma_trim_end(s: Seq<char>) -> (n: int)
    ensures
        0 <= n <= s.len(),
        blank(s.skip(n)),
        text::trim_end(s) == s.take(n),
        n > 0 ==> !text::is_white(s[n - 1]),
    decreases s.len(),
{
    if s.len() > 0 && text::is_white(s.last()) {
        let init = s.drop_last();
        let m = lemma_trim_end(init);
        assert(init.take(m) =~= s.take(m));
        assert forall|i: int| 0 <= i < s.len() - m implies text::is_white(#[trigger] s.skip(m)[i]) by {
            if i + m < init.len() {
                assert(init.skip(m)[i] == s[i + m]);
            }
        }
        m
    } else {
        assert(s.take(s.len() as int) =~= s);
        s.len() as int
    }
}

/// Trimming takes off white space at both ends, all of it and nothing else.
pub proof fn law_trimming_takes_off_white_space(s: Seq<char>) -> (from: int)
    ensures
        0 <= from <= from + text::trim(s).len() <= s.len(),
        text::trim(s) == s.subrange(from, from + text::trim(s).len()),
        blank(s.take(from)),
        blank(s.skip(from + text::trim(s).len())),
        text::trim(s).len() > 0 ==> !text::is_white(text::trim(s)[0]) && !text::is_white(text::trim(s).last()),
{
    let from = lemma_trim_start(s);
    let rest = s.skip(from);
    let n = lemma_trim_end(rest);
    assert(text::trim(s) =~= s.subrange(from, from + n));
    assert(s.skip(from + n) =~= rest.skip(n));
    from
}

/// Blanks, tabs and ends of line are white space; letters, digits and marks are not.
pub proof fn law_white_space_shows_nothing(c: char)
    ensures
        c == ' ' || c == '\t' || c == '\n' || c == '\r' ==> text::is_white(c),
        '!' <= c <= '~' ==> !text::is_white(c),
{
}

/// Folding turns each letter from A to Z into its lower-case form and leaves everything else.
pub proof fn law_folding_lowers_letters(s: Seq<char>, i: int)
    requires
        0 <= i < s.len(),
    ensures
        text::lower_seq(s).len() == s.len(),
        'A' <= s[i] <= 'Z' ==> text::lower_seq(s)[i] as int == s[i] as int + 32,
        !('A' <= s[i] <= 'Z') ==> text::lower_seq(s)[i] == s[i],
{
}

} // verus!
