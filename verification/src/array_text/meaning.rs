//! What the text of an array stands for.
use vstd::prelude::*;
use crate::array_text;
use crate::text;
use crate::value::ValueView;

verus! {

/// A token by itself: NULL for the word in any case, else text.
pub open spec fn bare(token: Seq<char>) -> ValueView {
    if text::lower_seq(token) == seq!['n', 'u', 'l', 'l'] {
        ValueView::Null
    } else {
        ValueView::Text(token)
    }
}

/// The text of an array stands in braces, with nothing but white space around them; braces with nothing
/// between them hold no element.
pub proof fn law_arrays_stand_in_braces(s: Seq<char>)
    ensures
        ({
            let t = text::trim(s);
            &&& t.len() < 2 ==> array_text::array_text(s) is None
            &&& t.len() >= 2 && t[0] != '{' ==> array_text::array_text(s) is None
            &&& t.len() >= 2 && t.last() != '}' ==> array_text::array_text(s) is None
            &&& t == seq!['{', '}'] ==> array_text::array_text(s) == Some(Seq::<ValueView>::empty())
        }),
{
    if text::trim(s) == seq!['{', '}'] {
        assert(text::trim(text::trim(s).subrange(1, 1)).len() == 0);
    }
}

proof fn lemma_comma(cs: Seq<char>, pos: nat, end: nat)
    requires
        pos <= end <= cs.len(),
        forall|i: int| pos <= i < end ==> #[trigger] cs[i] != ',',
        end < cs.len() ==> cs[end as int] == ',',
    ensures
        array_text::next_comma(cs, pos) == end,
    decreases end - pos,
{
    if pos < end {
        assert(cs[pos as int] != ',');
        lemma_comma(cs, pos + 1, end);
    }
}

/// An element without quotes runs to the next comma and is trimmed; the elements after the comma follow.
/// The last one runs to the end.
pub proof fn law_commas_separate_elements(cs: Seq<char>, pos: nat, end: nat)
    requires
        pos < end <= cs.len(),
        forall|i: int| pos <= i < end ==> #[trigger] cs[i] != ',',
        end < cs.len() ==> cs[end as int] == ',',
        !text::is_white(cs[pos as int]),
        cs[pos as int] != '"',
    ensures
        ({
            let first = bare(text::trim(cs.subrange(pos as int, end as int)));
            &&& end == cs.len() ==> array_text::elements(cs, pos) == Some(seq![first])
            &&& end < cs.len() ==> array_text::elements(cs, pos) == match array_text::elements(cs, end + 1) {
                Some(rest) => Some(seq![first] + rest),
                None => None,
            }
        }),
{
    lemma_comma(cs, pos, end);
    assert(array_text::skip_white(cs, pos) == pos);
    assert(!text::is_white(','));
    assert(array_text::skip_white(cs, end) == end);
}

/// White space before an element does not count.
pub proof fn law_white_space_before_elements_is_skipped(cs: Seq<char>, pos: nat)
    requires
        pos < cs.len(),
        text::is_white(cs[pos as int]),
    ensures
        array_text::skip_white(cs, pos) == array_text::skip_white(cs, pos + 1),
        array_text::skip_white(cs, cs.len()) == cs.len(),
{
}

/// Between quotes every character stands for itself up to the next quote, commas and white space too; the
/// word NULL is text there.
pub proof fn law_quoted_characters_stand_for_themselves(cs: Seq<char>, pos: nat, end: nat)
    requires
        pos < end < cs.len(),
        cs[pos as int] == '"',
        cs[end as int] == '"',
        forall|i: int| pos < i < end ==> #[trigger] cs[i] != '"' && cs[i] != '\\',
    ensures
        array_text::element(cs, pos) == Some(
            (ValueView::Text(cs.subrange(pos as int + 1, end as int)), end + 1),
        ),
{
    lemma_quoted(cs, pos + 1, end, Seq::empty());
    assert(Seq::<char>::empty() + cs.subrange(pos as int + 1, end as int) =~= cs.subrange(pos as int + 1, end as int));
}

proof fn lemma_quoted(cs: Seq<char>, pos: nat, end: nat, so_far: Seq<char>)
    requires
        pos <= end < cs.len(),
        cs[end as int] == '"',
        forall|i: int| pos <= i < end ==> #[trigger] cs[i] != '"' && cs[i] != '\\',
    ensures
        array_text::quoted(cs, pos, so_far) == Some((so_far + cs.subrange(pos as int, end as int), end + 1)),
    decreases end - pos,
{
    if pos < end {
        let c = cs[pos as int];
        lemma_quoted(cs, pos + 1, end, so_far.push(c));
        assert(so_far.push(c) + cs.subrange(pos as int + 1, end as int) =~= so_far + cs.subrange(
            pos as int,
            end as int,
        ));
    } else {
        assert(so_far + cs.subrange(pos as int, end as int) =~= so_far);
    }
}

/// A backslash between quotes stands for the character after it, whatever that is; a quote that is not
/// closed makes the text no array.
pub proof fn law_backslashes_escape(cs: Seq<char>, pos: nat, so_far: Seq<char>)
    ensures
        pos + 1 < cs.len() && cs[pos as int] == '\\' ==> array_text::quoted(cs, pos, so_far)
            == array_text::quoted(cs, pos + 2, so_far.push(cs[pos as int + 1])),
        pos + 1 == cs.len() && cs[pos as int] != '"' ==> array_text::quoted(cs, pos, so_far) is None,
        array_text::quoted(cs, cs.len(), so_far) is None,
{
    if pos + 1 == cs.len() {
        assert(array_text::quoted(cs, pos + 1, so_far.push(cs[pos as int])) is None);
    }
}

} // verus!
