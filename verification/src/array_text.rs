//! The text form of array literals: `{a,b,"c,d"}`.
use vstd::prelude::*;
use crate::text;
use crate::value::{Value, ValueView};

pub mod meaning;

verus! {

/// The first position from `pos` on that holds no white space.
pub open spec fn skip_white(cs: Seq<char>, pos: nat) -> nat
    decreases cs.len() - pos,
{
    if pos < cs.len() && text::is_white(cs[pos as int]) {
        skip_white(cs, pos + 1)
    } else {
        pos
    }
}

/// The first position from `pos` on that holds a comma, or the end.
pub open spec fn next_comma(cs: Seq<char>, pos: nat) -> nat
    decreases cs.len() - pos,
{
    if pos < cs.len() && cs[pos as int] != ',' {
        next_comma(cs, pos + 1)
    } else {
        pos
    }
}

/// The rest of a quoted element, `so_far` being its characters up to `pos`: a backslash stands for
/// the character after it, and a quote ends the element.
pub open spec fn quoted(cs: Seq<char>, pos: nat, so_far: Seq<char>) -> Option<(Seq<char>, nat)>
    decreases cs.len() - pos,
{
    if pos >= cs.len() {
        None
    } else if cs[pos as int] == '\\' {
        if pos + 1 >= cs.len() {
            None
        } else {
            quoted(cs, pos + 2, so_far.push(cs[(pos + 1) as int]))
        }
    } else if cs[pos as int] == '"' {
        Some((so_far, pos + 1))
    } else {
        quoted(cs, pos + 1, so_far.push(cs[pos as int]))
    }
}

/// The token `NULL` in any case.
pub open spec fn is_null_token(token: Seq<char>) -> bool {
    text::lower_seq(token) == seq!['n', 'u', 'l', 'l']
}

/// The element that starts at `pos` and where it ends. A quoted element is always text; an unquoted
/// one runs to the next comma and is trimmed, and the bare token `NULL` is a NULL.
pub open spec fn element(cs: Seq<char>, pos: nat) -> Option<(ValueView, nat)> {
    if pos < cs.len() && cs[pos as int] == '"' {
        match quoted(cs, pos + 1, Seq::empty()) {
            Some((t, end)) => Some((ValueView::Text(t), end)),
            None => None,
        }
    } else {
        let end = next_comma(cs, pos);
        let token = text::trim(cs.subrange(pos as int, end as int));
        Some(
            (
                if is_null_token(token) {
                    ValueView::Null
                } else {
                    ValueView::Text(token)
                },
                end,
            ),
        )
    }
}

/// The elements from `pos` to the end, separated by commas.
pub open spec fn elements(cs: Seq<char>, pos: nat) -> Option<Seq<ValueView>>
    decreases cs.len() - pos,
{
    match element(cs, skip_white(cs, pos)) {
        Some((v, end)) => {
            let next = skip_white(cs, end);
            if next >= cs.len() {
                Some(seq![v])
            } else if cs[next as int] == ',' && next >= pos {
                match elements(cs, next + 1) {
                    Some(rest) => Some(seq![v] + rest),
                    None => None,
                }
            } else {
                None
            }
        },
        None => None,
    }
}

/// The elements of the array literal `s`: text, or NULL for the bare token `NULL`.
pub open spec fn array_text(s: Seq<char>) -> Option<Seq<ValueView>> {
    let t = text::trim(s);
    if t.len() < 2 || t[0] != '{' || t.last() != '}' {
        None
    } else {
        let inner = t.subrange(1, t.len() - 1);
        if text::trim(inner).len() == 0 {
            Some(Seq::empty())
        } else {
            elements(inner, 0)
        }
    }
}

/// Step over white space.
fn skip_array_spaces(cs: &[char], pos: usize) -> (r: usize)
    requires
        pos <= cs@.len(),
    ensures
        r == skip_white(cs@, pos as nat),
        pos <= r <= cs@.len(),
{
    let mut p: usize = pos;
    while p < cs.len() && text::white(cs[p])
        invariant
            pos <= p <= cs@.len(),
            skip_white(cs@, pos as nat) == skip_white(cs@, p as nat),
        decreases cs@.len() - p,
    {
        p += 1;
    }
    p
}

/// The element that starts at `pos` and where it ends; `None` on an unterminated quote.
fn parse_one_array_element(cs: &[char], pos: usize) -> (r: Option<(Value, usize)>)
    requires
        pos <= cs@.len(),
    ensures
        match element(cs@, pos as nat) {
            Some((v, end)) => r matches Some((x, e)) && x@ == v && e == end && pos <= e <= cs@.len(),
            None => r is None,
        },
{
    if pos < cs.len() && cs[pos] == '"' {
        let mut p: usize = pos + 1;
        let mut buf = String::new();
        let ghost whole = quoted(cs@, (pos + 1) as nat, Seq::empty());
        assert(buf@ =~= Seq::<char>::empty());
        while p < cs.len()
            invariant
                pos < p <= cs@.len(),
                pos < cs@.len(),
                cs@[pos as int] == '"',
                whole == quoted(cs@, (pos + 1) as nat, Seq::empty()),
                whole == quoted(cs@, p as nat, buf@),
            decreases cs@.len() - p,
        {
            let c: char = cs[p];
            if c == '\\' {
                if p + 1 >= cs.len() {
                    return None;
                }
                buf.push(cs[p + 1]);
                p = p + 2;
            } else if c == '"' {
                return Some((Value::Text(buf), p + 1));
            } else {
                buf.push(c);
                p = p + 1;
            }
        }
        None
    } else {
        let mut p: usize = pos;
        while p < cs.len() && cs[p] != ','
            invariant
                pos <= p <= cs@.len(),
                next_comma(cs@, pos as nat) == next_comma(cs@, p as nat),
            decreases cs@.len() - p,
        {
            p += 1;
        }
        let (a, b): (usize, usize) = text::trim_bounds(cs, pos, p);
        let token = text::from_chars(cs, a, b);
        let word: [char; 4] = ['n', 'u', 'l', 'l'];
        let chars = text::to_chars(token.as_str());
        proof {
            let w = seq!['n', 'u', 'l', 'l'];
            assert(word@ =~= w);
            assert(text::lower_seq(w) =~= w);
        }
        if text::same_ignoring_case(chars.as_slice(), word.as_slice()) {
            Some((Value::Null, p))
        } else {
            Some((Value::Text(token), p))
        }
    }
}

/// The elements of the array literal `s`, each as text or NULL; `None` when it is malformed.
///
/// Nested forms are not array literals here.
pub fn parse_array_text(s: &str) -> (r: Option<Vec<Value>>)
    ensures
        match array_text(s@) {
            Some(items) => r matches Some(out) && out.deep_view() == items,
            None => r is None,
        },
{
    let all = text::to_chars(s);
    assert(all@.subrange(0, all@.len() as int) =~= all@);
    let (a, b): (usize, usize) = text::trim_bounds(all.as_slice(), 0, all.len());
    let ghost t = all@.subrange(a as int, b as int);
    if b - a < 2 || all[a] != '{' || all[b - 1] != '}' {
        return None;
    }
    let inner = vstd::slice::slice_subrange(all.as_slice(), a + 1, b - 1);
    assert(inner@ =~= t.subrange(1, t.len() - 1));
    assert(inner@.subrange(0, inner@.len() as int) =~= inner@);
    let (x, y): (usize, usize) = text::trim_bounds(inner, 0, inner.len());
    let mut out: Vec<Value> = Vec::new();
    if x == y {
        assert(out.deep_view() =~= Seq::<ValueView>::empty());
        return Some(out);
    }
    let ghost whole = elements(inner@, 0);
    let mut p: usize = 0;
    assert(out.deep_view() =~= Seq::<ValueView>::empty());
    assert(whole matches Some(items) ==> items =~= out.deep_view() + items);
    loop
        invariant
            p <= inner@.len(),
            whole == elements(inner@, 0),
            array_text(s@) == whole,
            whole == prepend(out.deep_view(), elements(inner@, p as nat)),
        decreases inner@.len() - p,
    {
        let ghost before = out.deep_view();
        let start: usize = skip_array_spaces(inner, p);
        let (v, end): (Value, usize) = match parse_one_array_element(inner, start) {
            Some(x) => x,
            None => {
                return None;
            },
        };
        out.push(v);
        assert(out.deep_view() =~= before.push(v@));
        let next: usize = skip_array_spaces(inner, end);
        if next >= inner.len() {
            assert(out.deep_view() =~= before + seq![v@]);
            return Some(out);
        }
        if inner[next] != ',' {
            return None;
        }
        proof {
            let rest = elements(inner@, (next + 1) as nat);
            assert(elements(inner@, p as nat) == prepend(seq![v@], rest));
            if let Some(items) = rest {
                assert(before + (seq![v@] + items) =~= out.deep_view() + items);
            }
        }
        p = next + 1;
    }
}

spec fn prepend(head: Seq<ValueView>, rest: Option<Seq<ValueView>>) -> Option<Seq<ValueView>> {
    match rest {
        Some(items) => Some(head + items),
        None => None,
    }
}

} // verus!
