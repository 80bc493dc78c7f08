//! Vector search: the stored graph, keeping a cached graph current, and choosing the nearest rows.
use vstd::prelude::*;
use crate::le;
use crate::memory;
use crate::order::{ColumnOrder, NullOrdering, SortKey};
use crate::sort;
use crate::text;
use crate::value::{Row, Value, ValueView};

pub mod meaning;
pub mod search;

verus! {

// ---------------------------------------------------------------- the search beam

/// The least width of the search beam.
pub const EF_SEARCH_MIN: usize = 64;

/// How many times more candidates are fetched where a filter will drop some.
pub const FILTER_OVERFETCH: usize = 8;

/// The number that a text spells: decimal digits, after a plus sign if there is one.
pub open spec fn spelled_number(s: Seq<char>) -> Option<nat> {
    let digits = if s.len() > 0 && s[0] == '+' {
        s.skip(1)
    } else {
        s
    };
    if digits.len() > 0 && memory::digit_count(digits) == digits.len() {
        Some(memory::digits_value(digits))
    } else {
        None
    }
}

/// The width of the search beam for the `k` nearest: that of the session setting, where it spells a
/// positive machine number, or else the least width; in any case `k`.
pub open spec fn beam_width(k: usize, setting: Option<Seq<char>>) -> usize {
    let hint = match setting {
        Some(s) => match spelled_number(text::trim(s)) {
            Some(n) => if 0 < n <= usize::MAX {
                n
            } else {
                EF_SEARCH_MIN as nat
            },
            None => EF_SEARCH_MIN as nat,
        },
        None => EF_SEARCH_MIN as nat,
    };
    if hint >= k {
        hint as usize
    } else {
        k
    }
}

proof fn lemma_digits_prefix(s: Seq<char>, n: nat)
    requires
        n <= s.len(),
        forall|k: int| 0 <= k < n ==> memory::is_digit(#[trigger] s[k]),
        n < s.len() ==> !memory::is_digit(s[n as int]),
    ensures
        memory::digit_count(s) == n,
    decreases s.len(),
{
    if n > 0 {
        let t = s.skip(1);
        assert forall|k: int| 0 <= k < n - 1 implies memory::is_digit(#[trigger] t[k]) by {
            assert(t[k] == s[k + 1]);
        }
        lemma_digits_prefix(t, (n - 1) as nat);
    }
}

/// The number that the characters `from..to` spell, where it is a machine number.
fn parse_number(cs: &[char], from: usize, to: usize) -> (r: Option<usize>)
    requires
        from <= to <= cs@.len(),
    ensures
        r == (match spelled_number(cs@.subrange(from as int, to as int)) {
            Some(n) => if n <= usize::MAX {
                Some(n as usize)
            } else {
                None
            },
            None => None,
        }),
{
    let ghost s = cs@.subrange(from as int, to as int);
    let start: usize = if from < to && cs[from] == '+' {
        from + 1
    } else {
        from
    };
    let ghost digits = cs@.subrange(start as int, to as int);
    proof {
        if start > from {
            assert(s.skip(1) =~= digits);
        } else {
            assert(s =~= digits);
        }
    }
    if start == to {
        return None;
    }
    let mut total: u128 = 0;
    let mut over: bool = false;
    let mut i: usize = start;
    assert(digits.take(0).len() == 0);
    while i < to
        invariant
            start <= i <= to <= cs@.len(),
            digits == cs@.subrange(start as int, to as int),
            forall|k: int| 0 <= k < i - start ==> memory::is_digit(#[trigger] digits[k]),
            !over ==> total == memory::digits_value(digits.take(i - start)),
            !over ==> total <= usize::MAX,
            over ==> memory::digits_value(digits.take(i - start)) > usize::MAX,
            s == cs@.subrange(from as int, to as int),
            digits == (if s.len() > 0 && s[0] == '+' {
                s.skip(1)
            } else {
                s
            }),
        decreases to - i,
    {
        let c: char = cs[i];
        assert(digits[i - start] == c);
        if !('0' <= c && c <= '9') {
            proof {
                lemma_digits_prefix(digits, (i - start) as nat);
            }
            return None;
        }
        let ghost now = digits.take(i + 1 - start);
        assert(now.drop_last() =~= digits.take(i - start));
        assert(now.last() == c);
        if !over {
            total = 10 * total + (c as u128 - '0' as u128);
            if total > usize::MAX as u128 {
                over = true;
            }
        }
        i += 1;
    }
    proof {
        lemma_digits_prefix(digits, digits.len());
        assert(digits.take(digits.len() as int) =~= digits);
    }
    if over {
        None
    } else {
        Some(total as usize)
    }
}

/// The width of the search beam for the `k` nearest.
pub fn resolve_ef_search(k: usize, setting: Option<&str>) -> (r: usize)
    ensures
        r == beam_width(
            k,
            match setting {
                Some(s) => Some(s@),
                None => None,
            },
        ),
        r >= k,
{
    let hint: usize = match setting {
        None => EF_SEARCH_MIN,
        Some(s) => {
            let cs = text::to_chars(s);
            assert(cs@.subrange(0, cs@.len() as int) =~= s@);
            let (a, b) = text::trim_bounds(cs.as_slice(), 0, cs.len());
            match parse_number(cs.as_slice(), a, b) {
                Some(n) => if n > 0 {
                    n
                } else {
                    EF_SEARCH_MIN
                },
                None => EF_SEARCH_MIN,
            }
        },
    };
    if hint >= k {
        hint
    } else {
        k
    }
}

// ---------------------------------------------------------------- the stored graph

/// The address of a stored row.
#[derive(Clone, Copy, Debug, PartialEq, Eq, Structural)]
pub struct Tid {
    pub page: u64,
    pub slot: u16,
}

pub const GRAPH_MAGIC: u32 = 0x4E56_4758;

pub const GRAPH_VERSION: u16 = 1;

/// A stored graph: the signature of the rows that it was built from, the graph, and the address of
/// the row of each node.
#[derive(Debug, PartialEq, Eq)]
pub struct GraphBlob {
    pub signature: u64,
    pub graph: Vec<u8>,
    pub nodes: Vec<Tid>,
}

/// The bytes of a row address.
pub open spec fn tid_bytes(t: Tid) -> Seq<u8> {
    le::le_bytes(t.page as nat, 8) + le::le_bytes(t.slot as nat, 2)
}

/// The bytes of row addresses, one after the other.
pub open spec fn tids_bytes(ts: Seq<Tid>) -> Seq<u8>
    decreases ts.len(),
{
    if ts.len() == 0 {
        Seq::empty()
    } else {
        tids_bytes(ts.drop_last()) + tid_bytes(ts.last())
    }
}

/// The bytes of a stored graph.
pub open spec fn blob_bytes(signature: u64, graph: Seq<u8>, nodes: Seq<Tid>) -> Seq<u8> {
    le::le_bytes(GRAPH_MAGIC as nat, 4) + le::le_bytes(GRAPH_VERSION as nat, 2) + le::le_bytes(
        signature as nat,
        8,
    ) + le::le_bytes(graph.len(), 8) + graph + le::le_bytes(nodes.len(), 8) + tids_bytes(nodes)
}

/// The row address at `pos`.
pub open spec fn tid_at(b: Seq<u8>, pos: nat) -> Tid {
    Tid { page: le::num_at(b, pos, 8) as u64, slot: le::num_at(b, pos + 8, 2) as u16 }
}

/// What the bytes of a stored graph hold: the signature, the graph and the nodes; `None` for bytes
/// that are cut short, go on beyond the end, or are of another format.
pub open spec fn read_blob(b: Seq<u8>) -> Option<(u64, Seq<u8>, Seq<Tid>)> {
    if b.len() < 22 || le::num_at(b, 0, 4) != GRAPH_MAGIC || le::num_at(b, 4, 2) != GRAPH_VERSION {
        None
    } else {
        let size = le::num_at(b, 14, 8);
        if 22 + size + 8 > b.len() {
            None
        } else {
            let count = le::num_at(b, 22 + size, 8);
            if 30 + size + 10 * count != b.len() {
                None
            } else {
                Some(
                    (
                        le::num_at(b, 6, 8) as u64,
                        b.subrange(22, (22 + size) as int),
                        Seq::new(count, |i: int| tid_at(b, (30 + size + 10 * i) as nat)),
                    ),
                )
            }
        }
    }
}

/// The bytes of a graph as it is stored.
pub fn encode_graph_blob(signature: u64, graph: &Vec<u8>, nodes: &Vec<Tid>) -> (r: Vec<u8>)
    ensures
        r@ == blob_bytes(signature, graph@, nodes@),
{
    let mut out: Vec<u8> = Vec::new();
    let size: usize = graph.len();
    let count: usize = nodes.len();
    le::push_le(&mut out, GRAPH_MAGIC as u128, 4);
    le::push_le(&mut out, GRAPH_VERSION as u128, 2);
    le::push_le(&mut out, signature as u128, 8);
    le::push_le(&mut out, size as u128, 8);
    le::push_bytes(&mut out, graph.as_slice());
    le::push_le(&mut out, count as u128, 8);
    let ghost head = out@;
    let mut i: usize = 0;
    assert(head =~= head + tids_bytes(nodes@.take(0)));
    while i < nodes.len()
        invariant
            i <= nodes@.len(),
            out@ == head + tids_bytes(nodes@.take(i as int)),
        decreases nodes@.len() - i,
    {
        let t: Tid = nodes[i];
        le::push_le(&mut out, t.page as u128, 8);
        le::push_le(&mut out, t.slot as u128, 2);
        proof {
            let now = nodes@.take(i + 1);
            assert(now.drop_last() =~= nodes@.take(i as int));
            assert(now.last() == t);
            assert(out@ =~= head + tids_bytes(now));
        }
        i += 1;
    }
    assert(nodes@.take(nodes@.len() as int) =~= nodes@);
    assert(out@ =~= blob_bytes(signature, graph@, nodes@));
    out
}

/// Read the bytes of a stored graph; `None` where they are no such bytes.
pub fn decode_graph_blob(blob: &[u8]) -> (r: Option<GraphBlob>)
    ensures
        match read_blob(blob@) {
            Some(v) => r matches Some(g) && g.signature == v.0 && g.graph@ == v.1 && g.nodes@ == v.2,
            None => r is None,
        },
{
    proof {
        le::lemma_pow256();
    }
    let total: usize = blob.len();
    if total < 22 {
        return None;
    }
    let magic: u128 = le::read_le(blob, 0, 4);
    let version: u128 = le::read_le(blob, 4, 2);
    if magic != GRAPH_MAGIC as u128 || version != GRAPH_VERSION as u128 {
        return None;
    }
    let signature: u128 = le::read_le(blob, 6, 8);
    let size: u128 = le::read_le(blob, 14, 8);
    if 30 + size > total as u128 {
        return None;
    }
    let n: usize = size as usize;
    let count: u128 = le::read_le(blob, 22 + n, 8);
    if 30 + size + 10 * count != total as u128 {
        return None;
    }
    let m: usize = count as usize;
    let graph = le::copy_bytes(blob, 22, n);
    let mut nodes: Vec<Tid> = Vec::new();
    let mut i: usize = 0;
    while i < m
        invariant
            total == blob@.len(),
            30 + n + 10 * m == total,
            i <= m,
            nodes@.len() == i,
            le::pow256(8) == 0x1_0000_0000_0000_0000,
            le::pow256(2) == 0x1_0000,
            forall|k: int|
                0 <= k < i ==> #[trigger] nodes@[k] == tid_at(blob@, (30 + n + 10 * k) as nat),
        decreases m - i,
    {
        let at: usize = 30 + n + 10 * i;
        let page: u128 = le::read_le(blob, at, 8);
        let slot: u128 = le::read_le(blob, at + 8, 2);
        nodes.push(Tid { page: page as u64, slot: slot as u16 });
        i += 1;
    }
    proof {
        let v = read_blob(blob@)->0;
        assert(nodes@ =~= v.2);
        assert(graph@ =~= v.1);
    }
    Some(GraphBlob { signature: signature as u64, graph, nodes })
}

proof fn lemma_tids_len(ts: Seq<Tid>)
    ensures
        tids_bytes(ts).len() == 10 * ts.len(),
    decreases ts.len(),
{
    if ts.len() > 0 {
        lemma_tids_len(ts.drop_last());
        le::lemma_le_len(ts.last().page as nat, 8);
        le::lemma_le_len(ts.last().slot as nat, 2);
    }
}

proof fn lemma_tids_at(b: Seq<u8>, base: nat, ts: Seq<Tid>)
    requires
        le::stands_at(b, base, tids_bytes(ts)),
    ensures
        forall|i: int|
            0 <= i < ts.len() ==> tid_at(b, (base + 10 * i) as nat) == #[trigger] ts[i],
    decreases ts.len(),
{
    if ts.len() > 0 {
        let init = ts.drop_last();
        let last = ts.last();
        lemma_tids_len(init);
        le::lemma_pow256();
        le::lemma_stands_split(b, base, tids_bytes(init), tid_bytes(last));
        lemma_tids_at(b, base, init);
        let pos = base + 10 * init.len();
        let pb = le::le_bytes(last.page as nat, 8);
        let sb = le::le_bytes(last.slot as nat, 2);
        le::lemma_le_len(last.page as nat, 8);
        le::lemma_le_len(last.slot as nat, 2);
        le::lemma_stands_split(b, pos, pb, sb);
        le::lemma_num_at(b, pos, last.page as nat, 8);
        le::lemma_num_at(b, pos + 8, last.slot as nat, 2);
        assert forall|i: int| 0 <= i < ts.len() implies tid_at(b, (base + 10 * i) as nat)
            == #[trigger] ts[i] by {
            if i < init.len() {
                assert(ts[i] == init[i]);
            }
        }
    }
}

/// A stored graph is read back as it was written.
pub proof fn law_graph_blob_round_trip(signature: u64, graph: Seq<u8>, nodes: Seq<Tid>)
    requires
        graph.len() <= u64::MAX,
        nodes.len() <= u64::MAX,
    ensures
        read_blob(blob_bytes(signature, graph, nodes)) == Some((signature, graph, nodes)),
{
    let b = blob_bytes(signature, graph, nodes);
    let p1 = le::le_bytes(GRAPH_MAGIC as nat, 4);
    let p2 = le::le_bytes(GRAPH_VERSION as nat, 2);
    let p3 = le::le_bytes(signature as nat, 8);
    let p4 = le::le_bytes(graph.len(), 8);
    let p6 = le::le_bytes(nodes.len(), 8);
    let p7 = tids_bytes(nodes);
    le::lemma_pow256();
    le::lemma_le_len(GRAPH_MAGIC as nat, 4);
    le::lemma_le_len(GRAPH_VERSION as nat, 2);
    le::lemma_le_len(signature as nat, 8);
    le::lemma_le_len(graph.len(), 8);
    le::lemma_le_len(nodes.len(), 8);
    lemma_tids_len(nodes);
    let n = graph.len();
    assert(b.subrange(0, 4) =~= p1);
    assert(b.subrange(4, 6) =~= p2);
    assert(b.subrange(6, 14) =~= p3);
    assert(b.subrange(14, 22) =~= p4);
    assert(b.subrange(22, (22 + n) as int) =~= graph);
    assert(b.subrange((22 + n) as int, (30 + n) as int) =~= p6);
    assert(b.subrange((30 + n) as int, b.len() as int) =~= p7);
    le::lemma_num_at(b, 0, GRAPH_MAGIC as nat, 4);
    le::lemma_num_at(b, 4, GRAPH_VERSION as nat, 2);
    le::lemma_num_at(b, 6, signature as nat, 8);
    le::lemma_num_at(b, 14, n, 8);
    le::lemma_num_at(b, 22 + n, nodes.len(), 8);
    assert(le::stands_at(b, 30 + n, p7));
    lemma_tids_at(b, 30 + n, nodes);
    let v = read_blob(b)->0;
    assert(v.2 =~= nodes);
}

proof fn lemma_bytes_of_num(b: Seq<u8>, pos: nat, n: nat)
    requires
        pos + n <= b.len(),
    ensures
        le::le_bytes(le::num_at(b, pos, n), n) == b.subrange(pos as int, (pos + n) as int),
        le::num_at(b, pos, n) < le::pow256(n),
{
    let part = b.subrange(pos as int, (pos + n) as int);
    le::lemma_le_write_read(part);
    le::lemma_le_value_bound(part);
}

proof fn lemma_tids_from(b: Seq<u8>, base: nat, n: nat)
    requires
        base + 10 * n <= b.len(),
    ensures
        tids_bytes(Seq::new(n, |i: int| tid_at(b, (base + 10 * i) as nat))) == b.subrange(
            base as int,
            (base + 10 * n) as int,
        ),
    decreases n,
{
    let ts = Seq::new(n, |i: int| tid_at(b, (base + 10 * i) as nat));
    if n == 0 {
        assert(b.subrange(base as int, base as int) =~= Seq::empty());
    } else {
        let m = (n - 1) as nat;
        lemma_tids_from(b, base, m);
        assert(ts.drop_last() =~= Seq::new(m, |i: int| tid_at(b, (base + 10 * i) as nat)));
        let pos = base + 10 * m;
        le::lemma_pow256();
        lemma_bytes_of_num(b, pos, 8);
        lemma_bytes_of_num(b, pos + 8, 2);
        assert(tid_bytes(ts.last()) =~= b.subrange(pos as int, (pos + 10) as int));
        assert(b.subrange(base as int, (base + 10 * n) as int) =~= b.subrange(
            base as int,
            pos as int,
        ) + b.subrange(pos as int, (pos + 10) as int));
    }
}

/// Bytes that are read as a stored graph are exactly those that the graph is stored as: a blob that is
/// cut short or goes on beyond its end is never read.
pub proof fn law_only_written_blobs_are_read(b: Seq<u8>)
    ensures
        read_blob(b) matches Some(v) ==> b == blob_bytes(v.0, v.1, v.2),
{
    if let Some(v) = read_blob(b) {
        le::lemma_pow256();
        let size = le::num_at(b, 14, 8);
        let count = le::num_at(b, 22 + size, 8);
        lemma_bytes_of_num(b, 0, 4);
        lemma_bytes_of_num(b, 4, 2);
        lemma_bytes_of_num(b, 6, 8);
        lemma_bytes_of_num(b, 14, 8);
        lemma_bytes_of_num(b, 22 + size, 8);
        lemma_tids_from(b, 30 + size, count);
        let whole = blob_bytes(v.0, v.1, v.2);
        lemma_tids_len(v.2);
        assert(b =~= b.subrange(0, 4) + b.subrange(4, 6) + b.subrange(6, 14) + b.subrange(14, 22)
            + b.subrange(22, (22 + size) as int) + b.subrange(
            (22 + size) as int,
            (30 + size) as int,
        ) + b.subrange((30 + size) as int, b.len() as int));
        assert(whole =~= b);
    }
}

// ---------------------------------------------------------------- chunks

/// The most bytes of a stored graph in one row.
pub const GRAPH_CHUNK: usize = 6000;

/// The `i`-th chunk of a blob.
pub open spec fn chunk_at(blob: Seq<u8>, i: int) -> Seq<u8> {
    let lo = GRAPH_CHUNK * i;
    let hi = if lo + GRAPH_CHUNK < blob.len() {
        lo + GRAPH_CHUNK
    } else {
        blob.len() as int
    };
    blob.subrange(lo, hi)
}

/// How many chunks a blob has.
pub open spec fn chunk_count(blob: Seq<u8>) -> nat {
    ((blob.len() + GRAPH_CHUNK - 1) / GRAPH_CHUNK as int) as nat
}

/// The rows in which a graph is stored under a name.
pub open spec fn chunk_row(name: Seq<char>, blob: Seq<u8>, i: int) -> Seq<ValueView> {
    seq![ValueView::Text(name), ValueView::Int(i as i64), ValueView::Bytes(chunk_at(blob, i))]
}

/// The rows in which the bytes of a graph are stored under a name: numbered chunks of bounded size.
pub fn chunk_rows(name: &str, blob: &Vec<u8>) -> (r: Vec<Row>)
    requires
        blob@.len() <= i64::MAX,
    ensures
        r.deep_view() == Seq::new(chunk_count(blob@), |i: int| chunk_row(name@, blob@, i)),
{
    let total: usize = blob.len();
    let mut out: Vec<Row> = Vec::new();
    let mut lo: usize = 0;
    let mut i: usize = 0;
    while lo < total
        invariant
            total == blob@.len(),
            total <= i64::MAX,
            i <= total,
            lo == GRAPH_CHUNK * i || (lo == total && i == chunk_count(blob@)),
            lo <= total,
            lo < total ==> i < chunk_count(blob@),
            lo == total ==> i == chunk_count(blob@),
            out@.len() == i,
            forall|k: int|
                0 <= k < i ==> (#[trigger] out@[k]).deep_view() == chunk_row(name@, blob@, k),
        decreases total - lo,
    {
        let n: usize = if total - lo > GRAPH_CHUNK {
            GRAPH_CHUNK
        } else {
            total - lo
        };
        let part = le::copy_bytes(blob.as_slice(), lo, n);
        assert(part@ =~= chunk_at(blob@, i as int));
        let mut row: Row = Vec::new();
        row.push(Value::Text(name.to_string()));
        row.push(Value::Int(i as i64));
        row.push(Value::Bytes(part));
        assert(row.deep_view() =~= chunk_row(name@, blob@, i as int));
        out.push(row);
        lo += n;
        i += 1;
    }
    assert(out.deep_view() =~= Seq::new(chunk_count(blob@), |i: int| chunk_row(name@, blob@, i)));
    out
}

/// A numbered chunk of a stored graph.
#[derive(Debug, PartialEq, Eq)]
pub struct Chunk {
    pub number: i64,
    pub data: Vec<u8>,
}

pub struct ChunkView {
    pub number: i64,
    pub data: Seq<u8>,
}

impl View for Chunk {
    type V = ChunkView;

    open spec fn view(&self) -> ChunkView {
        ChunkView { number: self.number, data: self.data@ }
    }
}

impl DeepView for Chunk {
    type V = ChunkView;

    open spec fn deep_view(&self) -> ChunkView {
        self@
    }
}

/// A catalog row is a chunk of the graph stored under `name`.
pub open spec fn chunk_of(row: Seq<ValueView>, name: Seq<char>) -> Option<ChunkView> {
    if row.len() == 3 {
        match (row[0], row[1], row[2]) {
            (ValueView::Text(n), ValueView::Int(number), ValueView::Bytes(data)) => if n == name {
                Some(ChunkView { number, data })
            } else {
                None
            },
            _ => None,
        }
    } else {
        None
    }
}

/// The chunks of the graph stored under `name`, among the first `n` catalog rows.
pub open spec fn chunks_of(rows: Seq<Seq<ValueView>>, name: Seq<char>, n: nat) -> Seq<ChunkView>
    decreases n,
{
    if n == 0 {
        Seq::empty()
    } else {
        let head = chunks_of(rows, name, (n - 1) as nat);
        match chunk_of(rows[n - 1], name) {
            Some(c) => head.push(c),
            None => head,
        }
    }
}

/// The chunks of the graph stored under `name`, as they come in the catalog.
pub fn collect_chunks(rows: &Vec<Row>, name: &str) -> (r: Vec<Chunk>)
    ensures
        r.deep_view() == chunks_of(rows.deep_view(), name@, rows@.len()),
{
    let ghost rv = rows.deep_view();
    let mut out: Vec<Chunk> = Vec::new();
    let mut i: usize = 0;
    assert(out.deep_view() =~= Seq::empty());
    while i < rows.len()
        invariant
            rv == rows.deep_view(),
            i <= rows@.len(),
            out.deep_view() == chunks_of(rv, name@, i as nat),
        decreases rows@.len() - i,
    {
        let ghost before = out.deep_view();
        assert(rv[i as int] == rows@[i as int].deep_view());
        let row = &rows[i];
        if row.len() == 3 {
            assert(rv[i as int][0] == row@[0]@);
            assert(rv[i as int][1] == row@[1]@);
            assert(rv[i as int][2] == row@[2]@);
            match (&row[0], &row[1], &row[2]) {
                (Value::Text(n), Value::Int(number), Value::Bytes(data)) => {
                    if text::same_text(n.as_str(), name) {
                        let copy = le::copy_bytes(data.as_slice(), 0, data.len());
                        assert(copy@ =~= data@);
                        out.push(Chunk { number: *number, data: copy });
                        assert(out.deep_view() =~= before.push(
                            ChunkView { number: *number, data: data@ },
                        ));
                    }
                },
                _ => {},
            }
        }
        i += 1;
    }
    out
}

/// The keys by which chunks are put in order.
pub open spec fn chunk_keys(chunks: Seq<ChunkView>) -> sort::KeyRows {
    chunks.map_values(|c: ChunkView| seq![ValueView::Int(c.number)])
}

/// One ascending key.
pub open spec fn ascending_key() -> Seq<SortKey> {
    seq![SortKey { ascending: true, nulls: NullOrdering::Default }]
}

/// The data of the chunks at the given places, one after the other.
pub open spec fn concatenated(chunks: Seq<ChunkView>, places: Seq<usize>, n: nat) -> Seq<u8>
    decreases n,
{
    if n == 0 {
        Seq::empty()
    } else {
        concatenated(chunks, places, (n - 1) as nat) + chunks[places[n - 1] as int].data
    }
}

/// The bytes that chunks hold, put together in the order of their numbers.
pub open spec fn assembled(chunks: Seq<ChunkView>) -> Seq<u8> {
    let places = sort::sorted_order(&ColumnOrder, chunk_keys(chunks), ascending_key());
    concatenated(chunks, places, places.len())
}

/// Put the chunks of a stored graph together.
pub fn assemble_chunks(chunks: &Vec<Chunk>) -> (r: Vec<u8>)
    ensures
        r@ == assembled(chunks.deep_view()),
{
    let ghost cv = chunks.deep_view();
    let mut keys: Vec<Vec<Value>> = Vec::new();
    let mut i: usize = 0;
    while i < chunks.len()
        invariant
            cv == chunks.deep_view(),
            i <= chunks@.len(),
            keys@.len() == i,
            forall|k: int|
                0 <= k < i ==> (#[trigger] keys@[k]).deep_view() == seq![ValueView::Int(cv[k].number)],
        decreases chunks@.len() - i,
    {
        assert(cv[i as int] == chunks@[i as int]@);
        let mut key: Vec<Value> = Vec::new();
        key.push(Value::Int(chunks[i].number));
        assert(key.deep_view() =~= seq![ValueView::Int(cv[i as int].number)]);
        keys.push(key);
        i += 1;
    }
    assert(keys.deep_view() =~= chunk_keys(cv));
    let mut ks: Vec<SortKey> = Vec::new();
    ks.push(SortKey { ascending: true, nulls: NullOrdering::Default });
    assert(ks@ =~= ascending_key());
    let places = sort::sort_places(&ColumnOrder, &keys, &ks);
    let mut out: Vec<u8> = Vec::new();
    let mut p: usize = 0;
    while p < places.len()
        invariant
            cv == chunks.deep_view(),
            p <= places@.len(),
            forall|a: int| 0 <= a < places@.len() ==> #[trigger] places@[a] < chunks@.len(),
            out@ == concatenated(cv, places@, p as nat),
        decreases places@.len() - p,
    {
        let at: usize = places[p];
        assert(cv[at as int] == chunks@[at as int]@);
        le::push_bytes(&mut out, chunks[at].data.as_slice());
        p += 1;
    }
    out
}

/// The chunks are those of `blob`, in any order: their numbers are 0, 1 and so on, each once.
pub open spec fn chunks_hold(chunks: Seq<ChunkView>, blob: Seq<u8>) -> bool {
    &&& chunks.len() == chunk_count(blob)
    &&& forall|i: int|
        0 <= i < chunks.len() ==> 0 <= (#[trigger] chunks[i]).number < chunks.len() && chunks[i].data
            == chunk_at(blob, chunks[i].number as int)
    &&& forall|i: int, j: int|
        0 <= i < j < chunks.len() ==> (#[trigger] chunks[i]).number != (#[trigger] chunks[j]).number
}

proof fn lemma_numbers_ascend(chunks: Seq<ChunkView>, places: Seq<usize>, a: nat)
    requires
        forall|p: int| 0 <= p < places.len() ==> 0 <= #[trigger] places[p] < chunks.len(),
        forall|i: int| 0 <= i < chunks.len() ==> 0 <= (#[trigger] chunks[i]).number,
        forall|p: int, q: int|
            0 <= p < q < places.len() ==> chunks[#[trigger] places[p] as int].number
                < chunks[#[trigger] places[q] as int].number,
        a < places.len(),
    ensures
        chunks[places[a as int] as int].number >= a,
    decreases a,
{
    if a > 0 {
        lemma_numbers_ascend(chunks, places, (a - 1) as nat);
        assert(chunks[places[a - 1] as int].number < chunks[places[a as int] as int].number);
    } else {
        assert(0 <= chunks[places[0] as int].number);
    }
}

proof fn lemma_numbers_bounded(chunks: Seq<ChunkView>, places: Seq<usize>, a: nat)
    requires
        forall|p: int| 0 <= p < places.len() ==> 0 <= #[trigger] places[p] < chunks.len(),
        forall|i: int| 0 <= i < chunks.len() ==> (#[trigger] chunks[i]).number < places.len(),
        forall|p: int, q: int|
            0 <= p < q < places.len() ==> chunks[#[trigger] places[p] as int].number
                < chunks[#[trigger] places[q] as int].number,
        a < places.len(),
    ensures
        chunks[places[a as int] as int].number <= a,
    decreases places.len() - a,
{
    if a + 1 < places.len() {
        lemma_numbers_bounded(chunks, places, a + 1);
        assert(chunks[places[a as int] as int].number < chunks[places[a as int + 1] as int].number);
    } else {
        assert(chunks[places[a as int] as int].number < places.len());
    }
}

proof fn lemma_concatenated(chunks: Seq<ChunkView>, places: Seq<usize>, blob: Seq<u8>, n: nat)
    requires
        n <= places.len(),
        places.len() == chunk_count(blob),
        forall|a: int|
            0 <= a < n ==> chunks[#[trigger] places[a] as int].data == chunk_at(blob, a),
    ensures
        concatenated(chunks, places, n) == blob.subrange(
            0,
            if GRAPH_CHUNK * n < blob.len() {
                (GRAPH_CHUNK * n) as int
            } else {
                blob.len() as int
            },
        ),
    decreases n,
{
    if n == 0 {
        assert(blob.subrange(0, 0) =~= Seq::empty());
    } else {
        lemma_concatenated(chunks, places, blob, (n - 1) as nat);
        let lo = GRAPH_CHUNK * (n - 1);
        let hi = if lo + GRAPH_CHUNK < blob.len() {
            lo + GRAPH_CHUNK
        } else {
            blob.len() as int
        };
        assert(lo < blob.len());
        assert(chunks[places[n - 1] as int].data == chunk_at(blob, n - 1));
        assert(blob.subrange(0, lo) + blob.subrange(lo, hi) =~= blob.subrange(0, hi));
    }
}

/// The chunks of a stored graph, in whatever order the catalog gives them, are put together to the
/// bytes that were stored.
pub proof fn law_chunks_reassemble(chunks: Seq<ChunkView>, blob: Seq<u8>)
    requires
        chunks_hold(chunks, blob),
        chunks.len() <= usize::MAX,
    ensures
        assembled(chunks) == blob,
{
    let o = ColumnOrder;
    let keys = chunk_keys(chunks);
    let ks = ascending_key();
    assert(sort::keyed(keys, ks.len()));
    sort::law_sorted_order_is_sorted(&o, keys, ks);
    let places = sort::sorted_order(&o, keys, ks);
    assert forall|p: int, q: int| 0 <= p < q < places.len() implies chunks[#[trigger] places[p] as int].number
        < chunks[#[trigger] places[q] as int].number by {
        let x = places[p] as int;
        let y = places[q] as int;
        assert(sort::before(&o, keys, ks, x, y));
        lemma_number_order(chunks, x, y);
        if x < y {
            assert(chunks[x].number != chunks[y].number);
        } else if y < x {
            assert(chunks[y].number != chunks[x].number);
        }
    }
    crate::window::run::lemma_permutation_len(&o, keys, ks, places, chunks.len());
    assert forall|a: int| 0 <= a < places.len() implies chunks[#[trigger] places[a] as int].data == chunk_at(
        blob,
        a,
    ) by {
        lemma_numbers_ascend(chunks, places, a as nat);
        lemma_numbers_bounded(chunks, places, a as nat);
        assert(chunks[places[a] as int].number == a);
    }
    lemma_concatenated(chunks, places, blob, places.len());
    assert(GRAPH_CHUNK * places.len() >= blob.len());
    assert(blob.subrange(0, blob.len() as int) =~= blob);
}

proof fn lemma_number_order(chunks: Seq<ChunkView>, x: int, y: int)
    requires
        0 <= x < chunks.len(),
        0 <= y < chunks.len(),
    ensures
        crate::order::keys_order(
            &ColumnOrder,
            chunk_keys(chunks)[x],
            chunk_keys(chunks)[y],
            ascending_key(),
            0,
        ) == crate::order::int_order(chunks[x].number as int, chunks[y].number as int),
{
    reveal(crate::order::value_order);
    let a = chunk_keys(chunks)[x];
    let b = chunk_keys(chunks)[y];
    assert(crate::order::keys_order(&ColumnOrder, a, b, ascending_key(), 1)
        == crate::order::Order::Equal);
}

} // verus!
