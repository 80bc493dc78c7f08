//! What the system catalogs share: rows of text fields, and lists kept in one field.
use vstd::prelude::*;
use crate::text::{from_chars, same_text, to_chars};
use crate::value::{Row, Value, ValueView};

pub mod meaning;
pub mod partition;
pub mod procedure;
pub mod sequences;

verus! {

// ---------------------------------------------------------------- fields

/// The text of the `i`-th field; empty where there is none or it is no text.
pub open spec fn field_text(row: Seq<ValueView>, i: int) -> Seq<char> {
    if 0 <= i < row.len() {
        match row[i] {
            ValueView::Text(s) => s,
            _ => Seq::empty(),
        }
    } else {
        Seq::empty()
    }
}

/// The text of the `i`-th field; empty where there is none or it is no text.
pub fn field(row: &Row, i: usize) -> (r: String)
    ensures
        r@ == field_text(row.deep_view(), i as int),
{
    if i < row.len() {
        assert(row.deep_view()[i as int] == row@[i as int]@);
        match &row[i] {
            Value::Text(s) => s.clone(),
            _ => String::new(),
        }
    } else {
        String::new()
    }
}

/// The first field is the text `name`.
pub open spec fn named(row: Seq<ValueView>, name: Seq<char>) -> bool {
    row.len() > 0 && row[0] == ValueView::Text(name)
}

fn is_named(row: &Row, name: &str) -> (r: bool)
    ensures
        r == named(row.deep_view(), name@),
{
    if row.len() == 0 {
        return false;
    }
    assert(row.deep_view()[0] == row@[0]@);
    match &row[0] {
        Value::Text(s) => same_text(s.as_str(), name),
        _ => false,
    }
}

/// The places of the rows of this name, among the first `n`.
pub open spec fn rows_named(rows: Seq<Seq<ValueView>>, name: Seq<char>, n: nat) -> Seq<usize>
    decreases n,
{
    if n == 0 {
        Seq::empty()
    } else if named(rows[n - 1], name) {
        rows_named(rows, name, (n - 1) as nat).push((n - 1) as usize)
    } else {
        rows_named(rows, name, (n - 1) as nat)
    }
}

/// The places of the rows of this name: those that go when it is dropped.
pub fn find_named(rows: &Vec<Row>, name: &str) -> (r: Vec<usize>)
    ensures
        r@ == rows_named(rows.deep_view(), name@, rows@.len()),
{
    let n: usize = rows.len();
    let mut out: Vec<usize> = Vec::new();
    let mut i: usize = 0;
    while i < n
        invariant
            n == rows@.len(),
            i <= n,
            out@ == rows_named(rows.deep_view(), name@, i as nat),
        decreases n - i,
    {
        assert(rows.deep_view()[i as int] == rows@[i as int].deep_view());
        if is_named(&rows[i], name) {
            out.push(i);
        }
        i += 1;
    }
    out
}

/// A text value.
pub fn text_value(s: &str) -> (r: Value)
    ensures
        r@ == ValueView::Text(s@),
{
    Value::Text(s.to_owned())
}

// ---------------------------------------------------------------- lists in a field

/// `s` divided at each `sep`.
pub open spec fn split(s: Seq<char>, sep: char) -> Seq<Seq<char>>
    decreases s.len(),
{
    if s.len() == 0 {
        seq![Seq::<char>::empty()]
    } else {
        let head = split(s.drop_last(), sep);
        if s.last() == sep {
            head.push(Seq::empty())
        } else {
            head.drop_last().push(head.last().push(s.last()))
        }
    }
}

/// The parts with `sep` between each two.
pub open spec fn join(parts: Seq<Seq<char>>, sep: char) -> Seq<char>
    decreases parts.len(),
{
    if parts.len() == 0 {
        Seq::empty()
    } else if parts.len() == 1 {
        parts[0]
    } else {
        join(parts.drop_last(), sep).push(sep) + parts.last()
    }
}

pub proof fn lemma_split_nonempty(s: Seq<char>, sep: char)
    ensures
        split(s, sep).len() > 0,
    decreases s.len(),
{
    if s.len() > 0 {
        lemma_split_nonempty(s.drop_last(), sep);
    }
}

/// Text without `sep` lengthens the last part.
proof fn lemma_split_extend(a: Seq<char>, p: Seq<char>, sep: char)
    requires
        !p.contains(sep),
    ensures
        split(a + p, sep) == split(a, sep).drop_last().push(split(a, sep).last() + p),
    decreases p.len(),
{
    lemma_split_nonempty(a, sep);
    if p.len() == 0 {
        assert(a + p =~= a);
        assert(split(a, sep).last() + p =~= split(a, sep).last());
        assert(split(a, sep) =~= split(a, sep).drop_last().push(split(a, sep).last()));
    } else {
        let q = p.drop_last();
        assert(!q.contains(sep)) by {
            if q.contains(sep) {
                let i = choose|i: int| 0 <= i < q.len() && q[i] == sep;
                assert(p[i] == sep);
            }
        }
        lemma_split_extend(a, q, sep);
        assert((a + p).drop_last() =~= a + q);
        assert(p[p.len() - 1] == p.last());
        assert((a + p).last() == p.last());
        let head = split(a + q, sep);
        assert(head.drop_last() =~= split(a, sep).drop_last());
        assert((split(a, sep).last() + q).push(p.last()) =~= split(a, sep).last() + p);
    }
}

/// Dividing a joined list gives its parts back, where there is one and none holds the separator.
pub proof fn law_split_undoes_join(parts: Seq<Seq<char>>, sep: char)
    requires
        parts.len() > 0,
        forall|i: int| 0 <= i < parts.len() ==> !(#[trigger] parts[i]).contains(sep),
    ensures
        split(join(parts, sep), sep) == parts,
    decreases parts.len(),
{
    let p = parts.last();
    assert(!parts[parts.len() - 1].contains(sep));
    if parts.len() == 1 {
        let e = Seq::<char>::empty();
        lemma_split_extend(e, p, sep);
        assert(e + p =~= p);
        assert(split(e, sep).last() + p =~= p);
        assert(split(p, sep) =~= parts);
    } else {
        let head = parts.drop_last();
        law_split_undoes_join(head, sep);
        let a = join(head, sep).push(sep);
        assert(a.drop_last() =~= join(head, sep));
        assert(split(a, sep) == head.push(Seq::empty()));
        lemma_split_extend(a, p, sep);
        assert(split(a, sep).drop_last() =~= head);
        assert(Seq::<char>::empty() + p =~= p);
        assert(head.push(p) =~= parts);
    }
}

/// Divide a text at each `sep`.
pub fn split_text(s: &str, sep: char) -> (r: Vec<String>)
    ensures
        r.deep_view() == split(s@, sep),
{
    let cs = to_chars(s);
    let n: usize = cs.len();
    let mut out: Vec<String> = Vec::new();
    let mut start: usize = 0;
    let mut i: usize = 0;
    assert(cs@.take(0) =~= Seq::<char>::empty());
    assert(out.deep_view().push(cs@.subrange(0, 0)) =~= split(cs@.take(0), sep));
    while i < n
        invariant
            n == cs@.len(),
            start <= i <= n,
            out.deep_view().push(cs@.subrange(start as int, i as int)) == split(
                cs@.take(i as int),
                sep,
            ),
        decreases n - i,
    {
        let ghost before = out.deep_view();
        let ghost part = cs@.subrange(start as int, i as int);
        assert(cs@.take(i + 1).drop_last() =~= cs@.take(i as int));
        assert(before.push(part).drop_last() =~= before);
        if cs[i] == sep {
            out.push(from_chars(cs.as_slice(), start, i));
            start = i + 1;
            assert(out.deep_view() =~= before.push(part));
            assert(cs@.subrange(i + 1, i + 1) =~= Seq::<char>::empty());
        } else {
            assert(cs@.subrange(start as int, i + 1) =~= part.push(cs@[i as int]));
        }
        i += 1;
    }
    let ghost before = out.deep_view();
    out.push(from_chars(cs.as_slice(), start, n));
    assert(cs@.take(n as int) =~= cs@);
    assert(out.deep_view() =~= before.push(cs@.subrange(start as int, n as int)));
    out
}

pub(crate) fn append_chars(out: &mut Vec<char>, s: &str)
    ensures
        final(out)@ == old(out)@ + s@,
{
    let cs = to_chars(s);
    let ghost was = out@;
    let mut i: usize = 0;
    assert(was + cs@.take(0) =~= was);
    while i < cs.len()
        invariant
            i <= cs@.len(),
            out@ == was + cs@.take(i as int),
        decreases cs@.len() - i,
    {
        out.push(cs[i]);
        assert(out@ =~= was + cs@.take(i + 1));
        i += 1;
    }
    assert(cs@.take(i as int) =~= cs@);
}

/// A text of these characters.
pub(crate) fn whole_text(cs: &Vec<char>) -> (r: String)
    ensures
        r@ == cs@,
{
    assert(cs@.subrange(0, cs@.len() as int) =~= cs@);
    from_chars(cs.as_slice(), 0, cs.len())
}

/// The parts with `sep` between each two.
pub fn join_texts(parts: &Vec<String>, sep: char) -> (r: String)
    ensures
        r@ == join(parts.deep_view(), sep),
{
    let ghost ps = parts.deep_view();
    let mut out: Vec<char> = Vec::new();
    let mut i: usize = 0;
    assert(ps.take(0) =~= Seq::<Seq<char>>::empty());
    while i < parts.len()
        invariant
            ps == parts.deep_view(),
            i <= parts@.len(),
            out@ == join(ps.take(i as int), sep),
        decreases parts@.len() - i,
    {
        let ghost was = out@;
        if i > 0 {
            out.push(sep);
        }
        append_chars(&mut out, parts[i].as_str());
        assert(ps[i as int] == parts@[i as int]@);
        assert(ps.take(i + 1).drop_last() =~= ps.take(i as int));
        assert(out@ =~= join(ps.take(i + 1), sep));
        i += 1;
    }
    assert(ps.take(i as int) =~= ps);
    whole_text(&out)
}

/// `i` is the first place of `sep`.
pub open spec fn first_at(s: Seq<char>, sep: char, i: int) -> bool {
    &&& 0 <= i < s.len()
    &&& s[i] == sep
    &&& forall|j: int| 0 <= j < i ==> #[trigger] s[j] != sep
}

/// What stands before and after the first `sep`.
pub open spec fn cut_at(s: Seq<char>, sep: char) -> Option<(Seq<char>, Seq<char>)> {
    if s.contains(sep) {
        let i = choose|i: int| first_at(s, sep, i);
        Some((s.take(i), s.skip(i + 1)))
    } else {
        None
    }
}

pub proof fn lemma_first_at(s: Seq<char>, sep: char, i: int)
    requires
        first_at(s, sep, i),
    ensures
        cut_at(s, sep) == Some((s.take(i), s.skip(i + 1))),
{
    let j = choose|j: int| first_at(s, sep, j);
    assert(first_at(s, sep, j));
    assert(i == j);
}

/// Dividing a text at its first `sep`.
pub fn cut_text(s: &str, sep: char) -> (r: Option<(String, String)>)
    ensures
        match cut_at(s@, sep) {
            Some((a, b)) => r matches Some((x, y)) && x@ == a && y@ == b,
            None => r is None,
        },
{
    let cs = to_chars(s);
    let mut i: usize = 0;
    while i < cs.len()
        invariant
            cs@ == s@,
            i <= cs@.len(),
            forall|j: int| 0 <= j < i ==> #[trigger] cs@[j] != sep,
        decreases cs@.len() - i,
    {
        if cs[i] == sep {
            proof {
                assert(first_at(s@, sep, i as int));
                lemma_first_at(s@, sep, i as int);
                assert(cs@.subrange(0, i as int) =~= s@.take(i as int));
                assert(cs@.subrange(i + 1, cs@.len() as int) =~= s@.skip(i + 1));
            }
            let n: usize = cs.len();
            return Some((from_chars(cs.as_slice(), 0, i), from_chars(cs.as_slice(), i + 1, n)));
        }
        i += 1;
    }
    None
}

} // verus!
