//! Table partitions: their bounds, which keys they accept, and their catalog.
//!
//! A catalog row is `(role, table, aux, kind, payload)`. A partitioned table has the role `parent`,
//! its key column as `aux` and its strategy as `kind`; a partition has the role `part`, its parent
//! as `aux`, and its bound in `kind` and `payload`.
use vstd::prelude::*;
use crate::catalog;
use crate::catalog::{cut_text, field, join_texts, split_text, text_value, whole_text};
use crate::error::Error;
use crate::numbers;
use crate::numbers::{parse_u64, print_u64};
use crate::order;
use crate::order::{Order, ValueOrder};
use crate::rng;
use crate::rng::fnv1a;
use crate::row;
use crate::row::{decode, encode_one, Conversion, Encoding, Items, Outcome, OutcomeView, Writing};
use crate::text::{same_text, to_chars};
use crate::types::ColumnType;
use crate::value::{Row, Value, ValueView};

verus! {

/// How a table is partitioned.
#[derive(Clone, Copy, Debug, PartialEq, Eq, Structural)]
pub enum PartitionStrategy {
    Range,
    List,
    Hash,
}

/// A partition's bound.
#[derive(Debug, PartialEq, Eq)]
pub enum PartitionBound {
    /// The keys from `lo` up to, but without, `hi`.
    Range { lo: Value, hi: Value },
    /// The keys equal to one of these.
    List(Vec<Value>),
    /// The keys whose hash leaves `remainder` when divided by `modulus`.
    Hash { modulus: u64, remainder: u64 },
}

/// What a [`PartitionBound`] holds.
pub enum BoundView {
    Range { lo: ValueView, hi: ValueView },
    List(Seq<ValueView>),
    Hash { modulus: u64, remainder: u64 },
}

impl DeepView for PartitionBound {
    type V = BoundView;

    open spec fn deep_view(&self) -> BoundView {
        match *self {
            PartitionBound::Range { lo, hi } => BoundView::Range { lo: lo@, hi: hi@ },
            PartitionBound::List(values) => BoundView::List(values.deep_view()),
            PartitionBound::Hash { modulus, remainder } => BoundView::Hash { modulus, remainder },
        }
    }
}

/// A partition: its table and its bound.
#[derive(Debug, PartialEq, Eq)]
pub struct PartitionEntry {
    pub table: String,
    pub bound: PartitionBound,
}

impl DeepView for PartitionEntry {
    type V = (Seq<char>, BoundView);

    open spec fn deep_view(&self) -> (Seq<char>, BoundView) {
        (self.table@, self.bound.deep_view())
    }
}

/// The word that a strategy is recorded as.
pub open spec fn strategy_word(s: PartitionStrategy) -> Seq<char> {
    match s {
        PartitionStrategy::Range => "range"@,
        PartitionStrategy::List => "list"@,
        PartitionStrategy::Hash => "hash"@,
    }
}

/// The word that a strategy is recorded as.
pub fn strategy_str(s: PartitionStrategy) -> (r: &'static str)
    ensures
        r@ == strategy_word(s),
{
    match s {
        PartitionStrategy::Range => "range",
        PartitionStrategy::List => "list",
        PartitionStrategy::Hash => "hash",
    }
}

// ---------------------------------------------------------------- keys

/// Hashing needs a conversion, or gives a number.
#[derive(Debug, PartialEq, Eq)]
pub enum Hashed {
    Complete(u64),
    Needs(Conversion),
}

/// Whether a key belongs to a partition, or the conversion to make first.
#[derive(Debug, PartialEq, Eq)]
pub enum Routing {
    Decided(bool),
    Needs(Conversion),
}

/// The hash of a key: that of its tuple; a key that cannot be stored hashes like no bytes at all.
pub open spec fn key_hash(key: ValueView, ty: ColumnType, outcomes: Seq<OutcomeView>) -> u64 {
    match row::stored_alone(key, ty, outcomes) {
        Items::Done { bytes, .. } => rng::fnv(bytes, bytes.len()),
        _ => rng::fnv(Seq::empty(), 0),
    }
}

/// A deterministic hash of a key of type `ty`.
///
/// `answers` holds, as its first entry, the outcomes of the conversions made so far.
pub fn value_hash(value: &Value, ty: ColumnType, answers: &Vec<Vec<Outcome>>) -> (r: Hashed)
    ensures
        match row::stored_alone(value@, ty, row::outcomes_at(answers.deep_view(), 0)) {
            Items::Stopped(Writing::Needs { value, ty }) => r matches Hashed::Needs(c) && c.value@
                == value && c.ty == ty,
            _ => r == Hashed::Complete(
                key_hash(value@, ty, row::outcomes_at(answers.deep_view(), 0)),
            ),
        },
{
    match encode_one(value, ty, answers, 0) {
        Ok(Encoding::Complete(bytes)) => Hashed::Complete(fnv1a(bytes.as_slice())),
        Ok(Encoding::Needs(c)) => Hashed::Needs(c),
        Err(_) => {
            let none: Vec<u8> = Vec::new();
            Hashed::Complete(fnv1a(none.as_slice()))
        },
    }
}

/// The list holds the key, or a value that is not distinct from it.
pub open spec fn listed<O: ValueOrder>(o: &O, key: ValueView, values: Seq<ValueView>) -> bool {
    exists|i: int| 0 <= i < values.len() && order::not_distinct(o, key, #[trigger] values[i])
}

/// The key belongs to the partition with this bound, if `hash` is the key's hash.
///
/// Only a list can hold NULL.
pub open spec fn accepted<O: ValueOrder>(o: &O, key: ValueView, bound: BoundView, hash: u64) -> bool {
    match bound {
        BoundView::Range { lo, hi } => {
            &&& !(key is Null)
            &&& !(o.order(key, lo) is Less)
            &&& o.order(key, hi) is Less
        },
        BoundView::List(values) => listed(o, key, values),
        BoundView::Hash { modulus, remainder } => {
            &&& !(key is Null)
            &&& modulus != 0
            &&& hash % modulus == remainder
        },
    }
}

/// Whether `key`, of type `ty`, belongs to the partition with this bound.
///
/// `answers` holds, as its first entry, the outcomes of the conversions made so far for hashing the
/// key.
pub fn accepts<O: ValueOrder>(
    o: &O,
    key: &Value,
    bound: &PartitionBound,
    ty: ColumnType,
    answers: &Vec<Vec<Outcome>>,
) -> (r: Routing)
    ensures
        ({
            let outs = row::outcomes_at(answers.deep_view(), 0);
            let decided = Routing::Decided(
                accepted(o, key@, bound.deep_view(), key_hash(key@, ty, outs)),
            );
            if bound is Hash && !(key@ is Null) && bound->modulus != 0 {
                match row::stored_alone(key@, ty, outs) {
                    Items::Stopped(Writing::Needs { value, ty }) => r matches Routing::Needs(c)
                        && c.value@ == value && c.ty == ty,
                    _ => r == decided,
                }
            } else {
                r == decided
            }
        }),
{
    let is_null: bool = match key {
        Value::Null => true,
        _ => false,
    };
    match bound {
        PartitionBound::Range { lo, hi } => {
            if is_null {
                return Routing::Decided(false);
            }
            let reached: bool = match o.compare(key, lo) {
                Order::Less => false,
                _ => true,
            };
            let below: bool = match o.compare(key, hi) {
                Order::Less => true,
                _ => false,
            };
            Routing::Decided(reached && below)
        },
        PartitionBound::List(values) => {
            let mut i: usize = 0;
            let ghost vs = values.deep_view();
            while i < values.len()
                invariant
                    vs == values.deep_view(),
                    bound.deep_view() == BoundView::List(vs),
                    bound is List,
                    i <= values@.len(),
                    forall|j: int| 0 <= j < i ==> !order::not_distinct(o, key@, #[trigger] vs[j]),
                decreases values@.len() - i,
            {
                assert(vs[i as int] == values@[i as int]@);
                let same: bool = match (key, &values[i]) {
                    (Value::Null, Value::Null) => true,
                    (Value::Null, _) => false,
                    (_, Value::Null) => false,
                    (x, y) => o.compare(x, y) == Order::Equal,
                };
                if same {
                    assert(listed(o, key@, vs));
                    return Routing::Decided(true);
                }
                i += 1;
            }
            Routing::Decided(false)
        },
        PartitionBound::Hash { modulus, remainder } => {
            if is_null || *modulus == 0 {
                return Routing::Decided(false);
            }
            match value_hash(key, ty, answers) {
                Hashed::Complete(h) => Routing::Decided(h % *modulus == *remainder),
                Hashed::Needs(c) => Routing::Needs(c),
            }
        },
    }
}

// ---------------------------------------------------------------- hexadecimal

/// The hexadecimal digit of `d`.
pub open spec fn hex_digit(d: int) -> char {
    if d < 10 {
        ('0' as int + d) as char
    } else {
        ('a' as int + d - 10) as char
    }
}

/// The bytes in hexadecimal, two digits each.
pub open spec fn hexed(bytes: Seq<u8>) -> Seq<char> {
    Seq::new(
        2 * bytes.len(),
        |i: int|
            if i % 2 == 0 {
                hex_digit(bytes[i / 2] as int / 16)
            } else {
                hex_digit(bytes[i / 2] as int % 16)
            },
    )
}

/// What a character counts as a hexadecimal digit, of either case.
pub open spec fn digit_value(c: char) -> Option<int> {
    if '0' <= c <= '9' {
        Some(c as int - '0' as int)
    } else if 'a' <= c <= 'f' {
        Some(c as int - 'a' as int + 10)
    } else if 'A' <= c <= 'F' {
        Some(c as int - 'A' as int + 10)
    } else {
        None
    }
}

/// The bytes that a text spells in hexadecimal.
pub open spec fn unhexed(s: Seq<char>) -> Option<Seq<u8>> {
    if s.len() % 2 == 0 && forall|i: int| 0 <= i < s.len() ==> digit_value(#[trigger] s[i]) is Some {
        Some(
            Seq::new(
                s.len() / 2,
                |i: int| (16 * digit_value(s[2 * i]).unwrap() + digit_value(s[2 * i + 1]).unwrap()) as u8,
            ),
        )
    } else {
        None
    }
}

proof fn lemma_hex_digit(d: int)
    requires
        0 <= d < 16,
    ensures
        digit_value(hex_digit(d)) == Some(d),
        hex_digit(d) != '|',
{
}

proof fn lemma_hex_round_trip(bytes: Seq<u8>)
    ensures
        unhexed(hexed(bytes)) == Some(bytes),
        !hexed(bytes).contains('|'),
{
    let s = hexed(bytes);
    assert forall|i: int| 0 <= i < s.len() implies digit_value(#[trigger] s[i]) is Some && s[i] != '|' by {
        lemma_hex_digit(bytes[i / 2] as int / 16);
        lemma_hex_digit(bytes[i / 2] as int % 16);
    }
    assert forall|i: int| 0 <= i < bytes.len() implies (16 * digit_value(s[2 * i]).unwrap()
        + digit_value(s[2 * i + 1]).unwrap()) as u8 == #[trigger] bytes[i] by {
        assert((2 * i) / 2 == i && (2 * i + 1) / 2 == i && (2 * i) % 2 == 0 && (2 * i + 1) % 2 == 1);
        lemma_hex_digit(bytes[i] as int / 16);
        lemma_hex_digit(bytes[i] as int % 16);
    }
    assert(unhexed(s).unwrap() =~= bytes);
}

fn hex_char(d: u8) -> (r: char)
    requires
        d < 16,
    ensures
        r == hex_digit(d as int),
{
    if d < 10 {
        (48 + d) as char
    } else {
        (87 + d) as char
    }
}

/// The bytes in hexadecimal.
pub fn to_hex(bytes: &[u8]) -> (r: String)
    ensures
        r@ == hexed(bytes@),
{
    let mut out: Vec<char> = Vec::new();
    let mut i: usize = 0;
    assert(bytes@.take(0) =~= Seq::<u8>::empty());
    assert(out@ =~= hexed(bytes@.take(0)));
    while i < bytes.len()
        invariant
            i <= bytes@.len(),
            out@ == hexed(bytes@.take(i as int)),
        decreases bytes@.len() - i,
    {
        let b: u8 = bytes[i];
        out.push(hex_char(b / 16));
        out.push(hex_char(b % 16));
        assert(out@ =~= hexed(bytes@.take(i + 1)));
        i += 1;
    }
    assert(bytes@.take(i as int) =~= bytes@);
    whole_text(&out)
}

fn hex_digit_of(c: char) -> (r: Option<u8>)
    ensures
        match r {
            Some(d) => d < 16 && digit_value(c) == Some(d as int),
            None => digit_value(c) is None,
        },
{
    let n: u32 = c as u32;
    if 48 <= n && n <= 57 {
        Some((n - 48) as u8)
    } else if 97 <= n && n <= 102 {
        Some((n - 87) as u8)
    } else if 65 <= n && n <= 70 {
        Some((n - 55) as u8)
    } else {
        None
    }
}

/// The bytes that a text spells in hexadecimal.
pub fn from_hex(s: &str) -> (r: Option<Vec<u8>>)
    ensures
        match unhexed(s@) {
            Some(bytes) => r matches Some(v) && v@ == bytes,
            None => r is None,
        },
{
    let cs = to_chars(s);
    let n: usize = cs.len();
    if n % 2 != 0 {
        return None;
    }
    let mut out: Vec<u8> = Vec::new();
    let mut i: usize = 0;
    while i < n
        invariant
            cs@ == s@,
            n == cs@.len(),
            n % 2 == 0,
            i % 2 == 0,
            i <= n,
            forall|j: int| 0 <= j < i ==> digit_value(#[trigger] cs@[j]) is Some,
            out@ == Seq::new(
                (i / 2) as nat,
                |j: int|
                    (16 * digit_value(cs@[2 * j]).unwrap() + digit_value(cs@[2 * j + 1]).unwrap()) as u8,
            ),
        decreases n - i,
    {
        assert(digit_value(cs@[i as int]) is Some || !(digit_value(cs@[i as int]) is Some));
        let hi: u8 = match hex_digit_of(cs[i]) {
            Some(d) => d,
            None => {
                return None;
            },
        };
        let lo: u8 = match hex_digit_of(cs[i + 1]) {
            Some(d) => d,
            None => {
                assert(!(digit_value(cs@[i + 1]) is Some));
                return None;
            },
        };
        out.push(16 * hi + lo);
        assert((i + 2) / 2 == i / 2 + 1);
        assert(2 * (i / 2) == i);
        assert(out@ =~= Seq::new(
            ((i + 2) / 2) as nat,
            |j: int|
                (16 * digit_value(cs@[2 * j]).unwrap() + digit_value(cs@[2 * j + 1]).unwrap()) as u8,
        ));
        i += 2;
    }
    Some(out)
}

// ---------------------------------------------------------------- payloads

/// The values of a bound.
pub open spec fn bound_values(b: BoundView) -> Seq<ValueView> {
    match b {
        BoundView::Range { lo, hi } => seq![lo, hi],
        BoundView::List(values) => values,
        BoundView::Hash { .. } => Seq::empty(),
    }
}

/// The strategy that a bound belongs to.
pub open spec fn strategy_of(b: BoundView) -> PartitionStrategy {
    match b {
        BoundView::Range { .. } => PartitionStrategy::Range,
        BoundView::List(_) => PartitionStrategy::List,
        BoundView::Hash { .. } => PartitionStrategy::Hash,
    }
}

/// How far writing the values of a bound gets with the outcomes at hand.
pub enum Spelling {
    /// The values, in hexadecimal.
    Done(Seq<Seq<char>>),
    /// The value at this place could not be stored.
    Stopped { place: nat, how: Items },
}

/// Writing the first `n` values, each as the hexadecimal form of its tuple.
pub open spec fn spelling(
    values: Seq<ValueView>,
    ty: ColumnType,
    answers: Seq<Seq<OutcomeView>>,
    n: nat,
) -> Spelling
    decreases n,
{
    if n == 0 {
        Spelling::Done(Seq::empty())
    } else {
        match spelling(values, ty, answers, (n - 1) as nat) {
            Spelling::Done(parts) => match row::stored_alone(
                values[n - 1],
                ty,
                row::outcomes_at(answers, (n - 1) as nat),
            ) {
                Items::Done { bytes, .. } => Spelling::Done(parts.push(hexed(bytes))),
                how => Spelling::Stopped { place: (n - 1) as nat, how },
            },
            stopped => stopped,
        }
    }
}

proof fn lemma_spelling_stops(
    values: Seq<ValueView>,
    ty: ColumnType,
    answers: Seq<Seq<OutcomeView>>,
    k: nat,
    n: nat,
)
    requires
        k <= n,
        spelling(values, ty, answers, k) is Stopped,
    ensures
        spelling(values, ty, answers, n) == spelling(values, ty, answers, k),
    decreases n - k,
{
    if k < n {
        lemma_spelling_stops(values, ty, answers, k + 1, n);
    }
}

/// The parts that a bound is recorded as.
pub open spec fn bound_parts(b: BoundView, ty: ColumnType, answers: Seq<Seq<OutcomeView>>) -> Spelling {
    match b {
        BoundView::Hash { modulus, remainder } => Spelling::Done(
            seq![numbers::decimal(modulus as int), numbers::decimal(remainder as int)],
        ),
        _ => spelling(bound_values(b), ty, answers, bound_values(b).len()),
    }
}

/// How far `encode_payload` got.
#[derive(Debug, PartialEq, Eq)]
pub enum Payload {
    /// The payload.
    Complete(String),
    /// The next conversion to make, for the value at `place`.
    Needs { place: usize, conversion: Conversion },
}

fn spell_values(values: &Vec<Value>, ty: ColumnType, answers: &Vec<Vec<Outcome>>) -> (r: Result<
    Payload,
    Error,
>)
    ensures
        match spelling(values.deep_view(), ty, answers.deep_view(), values@.len()) {
            Spelling::Done(parts) => r matches Ok(Payload::Complete(s)) && s@ == catalog::join(
                parts,
                '|',
            ),
            Spelling::Stopped { place, how: Items::Stopped(Writing::Needs { value, ty }) } => r matches Ok(
                Payload::Needs { place: p, conversion },
            ) && p == place && conversion.value@ == value && conversion.ty == ty,
            Spelling::Stopped { how: Items::Stopped(Writing::Refused(f)), .. } => r matches Err(e)
                && row::reports(e, f),
            _ => false,
        },
{
    let n: usize = values.len();
    let ghost vs = values.deep_view();
    let ghost ans = answers.deep_view();
    let mut parts: Vec<String> = Vec::new();
    let mut i: usize = 0;
    assert(parts.deep_view() =~= Seq::<Seq<char>>::empty());
    while i < n
        invariant
            n == values@.len(),
            vs == values.deep_view(),
            ans == answers.deep_view(),
            i <= n,
            spelling(vs, ty, ans, i as nat) == Spelling::Done(parts.deep_view()),
        decreases n - i,
    {
        let ghost was = parts.deep_view();
        assert(vs[i as int] == values@[i as int]@);
        match encode_one(&values[i], ty, answers, i) {
            Ok(Encoding::Complete(bytes)) => {
                let h = to_hex(bytes.as_slice());
                parts.push(h);
                assert(parts.deep_view() =~= was.push(h@));
            },
            Ok(Encoding::Needs(conversion)) => {
                proof {
                    lemma_spelling_stops(vs, ty, ans, (i + 1) as nat, n as nat);
                }
                return Ok(Payload::Needs { place: i, conversion });
            },
            Err(e) => {
                proof {
                    lemma_spelling_stops(vs, ty, ans, (i + 1) as nat, n as nat);
                }
                return Err(e);
            },
        }
        i += 1;
    }
    Ok(Payload::Complete(join_texts(&parts, '|')))
}

/// The strategy of a bound and the text it is recorded as: its values in hexadecimal, or the modulus
/// and the remainder in decimal, with bars between.
///
/// The entry of `answers` at a value's place holds the outcomes of the conversions made for it so
/// far.
pub fn encode_payload(bound: &PartitionBound, ty: ColumnType, answers: &Vec<Vec<Outcome>>) -> (r:
    Result<(PartitionStrategy, Payload), Error>)
    ensures
        match bound_parts(bound.deep_view(), ty, answers.deep_view()) {
            Spelling::Done(parts) => r matches Ok((k, Payload::Complete(s))) && k == strategy_of(
                bound.deep_view(),
            ) && s@ == catalog::join(parts, '|'),
            Spelling::Stopped { place, how: Items::Stopped(Writing::Needs { value, ty }) } => r matches Ok(
                (k, Payload::Needs { place: p, conversion }),
            ) && k == strategy_of(bound.deep_view()) && p == place && conversion.value@ == value
                && conversion.ty == ty,
            Spelling::Stopped { how: Items::Stopped(Writing::Refused(f)), .. } => r matches Err(e)
                && row::reports(e, f),
            _ => false,
        },
{
    match bound {
        PartitionBound::Range { lo, hi } => {
            let mut ends: Vec<Value> = Vec::new();
            ends.push(lo.clone());
            ends.push(hi.clone());
            assert(ends.deep_view() =~= seq![lo@, hi@]);
            match spell_values(&ends, ty, answers) {
                Ok(p) => Ok((PartitionStrategy::Range, p)),
                Err(e) => Err(e),
            }
        },
        PartitionBound::List(values) => match spell_values(values, ty, answers) {
            Ok(p) => Ok((PartitionStrategy::List, p)),
            Err(e) => Err(e),
        },
        PartitionBound::Hash { modulus, remainder } => {
            let mut parts: Vec<String> = Vec::new();
            parts.push(print_u64(*modulus));
            parts.push(print_u64(*remainder));
            assert(parts.deep_view() =~= seq![
                numbers::decimal(*modulus as int),
                numbers::decimal(*remainder as int),
            ]);
            Ok((PartitionStrategy::Hash, Payload::Complete(join_texts(&parts, '|'))))
        },
    }
}

/// The value that a text spells as the hexadecimal form of its tuple, or where it stops making sense.
#[verifier::opaque]
pub open spec fn unspelled(h: Seq<char>, ty: ColumnType) -> Result<ValueView, nat> {
    match unhexed(h) {
        Some(bytes) => match row::tuple(bytes, seq![ty]) {
            Ok((row, _)) => Ok(row[0]),
            Err(at) => Err(at),
        },
        None => Err(0),
    }
}

/// The values that the first `n` parts spell.
pub open spec fn unspelled_all(parts: Seq<Seq<char>>, ty: ColumnType, n: nat) -> Result<
    Seq<ValueView>,
    nat,
>
    decreases n,
{
    if n == 0 {
        Ok(Seq::empty())
    } else {
        match unspelled_all(parts, ty, (n - 1) as nat) {
            Ok(head) => match unspelled(parts[n - 1], ty) {
                Ok(v) => Ok(head.push(v)),
                Err(at) => Err(at),
            },
            Err(at) => Err(at),
        }
    }
}

/// The bound that is recorded as this kind and payload, or where it stops making sense.
pub open spec fn bound_from(kind: Seq<char>, payload: Seq<char>, ty: ColumnType) -> Result<
    BoundView,
    nat,
> {
    if kind == "range"@ {
        match catalog::cut_at(payload, '|') {
            Some((a, b)) => match unspelled(a, ty) {
                Ok(lo) => match unspelled(b, ty) {
                    Ok(hi) => Ok(BoundView::Range { lo, hi }),
                    Err(at) => Err(at),
                },
                Err(at) => Err(at),
            },
            None => Err(0),
        }
    } else if kind == "list"@ {
        let parts = catalog::split(payload, '|');
        match unspelled_all(parts, ty, parts.len()) {
            Ok(values) => Ok(BoundView::List(values)),
            Err(at) => Err(at),
        }
    } else if kind == "hash"@ {
        match catalog::cut_at(payload, '|') {
            Some((a, b)) => match (numbers::spelled_u64(a), numbers::spelled_u64(b)) {
                (Some(modulus), Some(remainder)) => Ok(BoundView::Hash { modulus, remainder }),
                _ => Err(0),
            },
            None => Err(0),
        }
    } else {
        Err(0)
    }
}

/// `r` is the outcome `expected`, a refusal being reported with its place.
pub open spec fn bound_outcome(
    expected: Result<BoundView, nat>,
    r: Result<PartitionBound, Error>,
) -> bool {
    match expected {
        Ok(b) => r matches Ok(x) && x.deep_view() == b,
        Err(at) => r == Err::<PartitionBound, Error>(Error::MalformedTuple { offset: at as usize }),
    }
}

fn unhex_value(h: &str, ty: ColumnType) -> (r: Result<Value, Error>)
    ensures
        match unspelled(h@, ty) {
            Ok(v) => r matches Ok(x) && x@ == v,
            Err(at) => r == Err::<Value, Error>(Error::MalformedTuple { offset: at as usize }),
        },
{
    reveal(unspelled);
    let bytes = match from_hex(h) {
        Some(b) => b,
        None => {
            return Err(Error::MalformedTuple { offset: 0 });
        },
    };
    let mut schema: Vec<ColumnType> = Vec::new();
    schema.push(ty);
    let types: &[ColumnType] = schema.as_slice();
    assert(types@ =~= seq![ty]);
    match decode(bytes.as_slice(), types) {
        Ok(row) => {
            proof {
                lemma_one_column(bytes@, ty);
            }
            assert(row.deep_view()[0] == row@[0]@);
            Ok(row[0].clone())
        },
        Err(e) => Err(e),
    }
}

proof fn lemma_one_column(bytes: Seq<u8>, ty: ColumnType)
    ensures
        row::tuple(bytes, seq![ty]) matches Ok((row, _)) ==> row.len() == 1,
{
    reveal_with_fuel(row::columns_from, 2);
}

/// Read the bound recorded as this kind and payload.
pub fn decode_payload(kind: &str, payload: &str, ty: ColumnType) -> (r: Result<PartitionBound, Error>)
    ensures
        bound_outcome(bound_from(kind@, payload@, ty), r),
{
    if same_text(kind, "range") {
        match cut_text(payload, '|') {
            Some((a, b)) => {
                let lo = match unhex_value(a.as_str(), ty) {
                    Ok(v) => v,
                    Err(e) => {
                        return Err(e);
                    },
                };
                match unhex_value(b.as_str(), ty) {
                    Ok(hi) => Ok(PartitionBound::Range { lo, hi }),
                    Err(e) => Err(e),
                }
            },
            None => Err(Error::MalformedTuple { offset: 0 }),
        }
    } else if same_text(kind, "list") {
        let parts = split_text(payload, '|');
        match unhex_values(&parts, ty) {
            Ok(values) => Ok(PartitionBound::List(values)),
            Err(e) => Err(e),
        }
    } else if same_text(kind, "hash") {
        match cut_text(payload, '|') {
            Some((a, b)) => match (parse_u64(a.as_str()), parse_u64(b.as_str())) {
                (Some(modulus), Some(remainder)) => Ok(PartitionBound::Hash { modulus, remainder }),
                _ => Err(Error::MalformedTuple { offset: 0 }),
            },
            None => Err(Error::MalformedTuple { offset: 0 }),
        }
    } else {
        Err(Error::MalformedTuple { offset: 0 })
    }
}

proof fn lemma_unspelled_stops(parts: Seq<Seq<char>>, ty: ColumnType, k: nat, n: nat)
    requires
        k <= n,
        unspelled_all(parts, ty, k) is Err,
    ensures
        unspelled_all(parts, ty, n) == unspelled_all(parts, ty, k),
    decreases n - k,
{
    if k < n {
        lemma_unspelled_stops(parts, ty, k + 1, n);
    }
}

fn unhex_values(parts: &Vec<String>, ty: ColumnType) -> (r: Result<Vec<Value>, Error>)
    ensures
        match unspelled_all(parts.deep_view(), ty, parts@.len()) {
            Ok(vs) => r matches Ok(x) && x.deep_view() == vs,
            Err(at) => r == Err::<Vec<Value>, Error>(Error::MalformedTuple { offset: at as usize }),
        },
{
    let n: usize = parts.len();
    let ghost ps = parts.deep_view();
    let mut out: Vec<Value> = Vec::new();
    let mut i: usize = 0;
    assert(out.deep_view() =~= Seq::<ValueView>::empty());
    while i < n
        invariant
            n == parts@.len(),
            ps == parts.deep_view(),
            i <= n,
            unspelled_all(ps, ty, i as nat) == Ok::<Seq<ValueView>, nat>(out.deep_view()),
        decreases n - i,
    {
        let ghost was = out.deep_view();
        assert(ps[i as int] == parts@[i as int]@);
        match unhex_value(parts[i].as_str(), ty) {
            Ok(v) => {
                out.push(v);
                assert(out.deep_view() =~= was.push(v@));
            },
            Err(e) => {
                proof {
                    lemma_unspelled_stops(ps, ty, (i + 1) as nat, n as nat);
                }
                return Err(e);
            },
        }
        i += 1;
    }
    Ok(out)
}

// ---------------------------------------------------------------- the catalog

/// The catalog row of a partitioned table.
pub fn parent_row(parent: &str, key_column: &str, strategy: PartitionStrategy) -> (r: Row)
    ensures
        r.deep_view() == parent_entry(parent@, key_column@, strategy),
{
    let mut out: Vec<Value> = Vec::new();
    out.push(text_value("parent"));
    out.push(text_value(parent));
    out.push(text_value(key_column));
    out.push(text_value(strategy_str(strategy)));
    out.push(text_value(""));
    assert(out.deep_view() =~= parent_entry(parent@, key_column@, strategy));
    out
}

/// The catalog row of a partitioned table.
pub open spec fn parent_entry(
    parent: Seq<char>,
    key_column: Seq<char>,
    strategy: PartitionStrategy,
) -> Seq<ValueView> {
    seq![
        ValueView::Text("parent"@),
        ValueView::Text(parent),
        ValueView::Text(key_column),
        ValueView::Text(strategy_word(strategy)),
        ValueView::Text(""@),
    ]
}

/// The catalog row of a partition.
pub fn partition_row(
    partition: &str,
    parent: &str,
    strategy: PartitionStrategy,
    payload: &str,
) -> (r: Row)
    ensures
        r.deep_view() == partition_entry(partition@, parent@, strategy, payload@),
{
    let mut out: Vec<Value> = Vec::new();
    out.push(text_value("part"));
    out.push(text_value(partition));
    out.push(text_value(parent));
    out.push(text_value(strategy_str(strategy)));
    out.push(text_value(payload));
    assert(out.deep_view() =~= partition_entry(partition@, parent@, strategy, payload@));
    out
}

/// The catalog row of a partition.
pub open spec fn partition_entry(
    partition: Seq<char>,
    parent: Seq<char>,
    strategy: PartitionStrategy,
    payload: Seq<char>,
) -> Seq<ValueView> {
    seq![
        ValueView::Text("part"@),
        ValueView::Text(partition),
        ValueView::Text(parent),
        ValueView::Text(strategy_word(strategy)),
        ValueView::Text(payload),
    ]
}

/// The row has this role and names this table.
pub open spec fn is_entry(row: Seq<ValueView>, role: Seq<char>, table: Seq<char>) -> bool {
    catalog::field_text(row, 0) == role && catalog::field_text(row, 1) == table
}

/// The place of the first row, from `i` on, that has this role and names this table.
pub open spec fn entry_from(
    rows: Seq<Seq<ValueView>>,
    role: Seq<char>,
    table: Seq<char>,
    i: nat,
) -> Option<nat>
    decreases rows.len() - i,
{
    if i >= rows.len() {
        None
    } else if is_entry(rows[i as int], role, table) {
        Some(i)
    } else {
        entry_from(rows, role, table, i + 1)
    }
}

fn find_entry(rows: &Vec<Row>, role: &str, table: &str) -> (r: Option<usize>)
    ensures
        match entry_from(rows.deep_view(), role@, table@, 0) {
            Some(i) => r matches Some(j) && j == i && i < rows@.len(),
            None => r is None,
        },
{
    let n: usize = rows.len();
    let ghost rv = rows.deep_view();
    let mut i: usize = 0;
    while i < n
        invariant
            n == rows@.len(),
            rv == rows.deep_view(),
            i <= n,
            entry_from(rv, role@, table@, 0) == entry_from(rv, role@, table@, i as nat),
        decreases n - i,
    {
        assert(rv[i as int] == rows@[i as int].deep_view());
        let have = field(&rows[i], 0);
        let named = field(&rows[i], 1);
        if same_text(have.as_str(), role) && same_text(named.as_str(), table) {
            return Some(i);
        }
        i += 1;
    }
    None
}

/// The `k`-th field of the first row with this role that names this table.
pub open spec fn entry_field(
    rows: Seq<Seq<ValueView>>,
    role: Seq<char>,
    table: Seq<char>,
    k: int,
) -> Option<Seq<char>> {
    match entry_from(rows, role, table, 0) {
        Some(i) => Some(catalog::field_text(rows[i as int], k)),
        None => None,
    }
}

/// `r` is the text `expected`, where there is one.
pub open spec fn same_option(expected: Option<Seq<char>>, r: Option<String>) -> bool {
    match expected {
        Some(s) => r matches Some(x) && x@ == s,
        None => r is None,
    }
}

fn find_field(rows: &Vec<Row>, role: &str, table: &str, k: usize) -> (r: Option<String>)
    ensures
        same_option(entry_field(rows.deep_view(), role@, table@, k as int), r),
{
    match find_entry(rows, role, table) {
        Some(i) => {
            assert(rows.deep_view()[i as int] == rows@[i as int].deep_view());
            Some(field(&rows[i], k))
        },
        None => None,
    }
}

/// The key column of a partitioned table.
pub fn parent_key_column(rows: &Vec<Row>, table: &str) -> (r: Option<String>)
    ensures
        same_option(entry_field(rows.deep_view(), "parent"@, table@, 2), r),
{
    find_field(rows, "parent", table, 2)
}

/// The recorded strategy of a partitioned table.
pub fn parent_strategy(rows: &Vec<Row>, table: &str) -> (r: Option<String>)
    ensures
        same_option(entry_field(rows.deep_view(), "parent"@, table@, 3), r),
{
    find_field(rows, "parent", table, 3)
}

/// The partitioned table that `table` is a partition of.
pub fn partition_parent(rows: &Vec<Row>, table: &str) -> (r: Option<String>)
    ensures
        same_option(entry_field(rows.deep_view(), "part"@, table@, 2), r),
{
    find_field(rows, "part", table, 2)
}

/// The bound recorded in a row.
pub open spec fn row_bound(row: Seq<ValueView>, ty: ColumnType) -> Result<BoundView, nat> {
    bound_from(catalog::field_text(row, 3), catalog::field_text(row, 4), ty)
}

fn read_bound(row: &Row, ty: ColumnType) -> (r: Result<PartitionBound, Error>)
    ensures
        bound_outcome(row_bound(row.deep_view(), ty), r),
{
    let kind = field(row, 3);
    let payload = field(row, 4);
    decode_payload(kind.as_str(), payload.as_str(), ty)
}

/// The partitioned table that `table` is a partition of, and the partition's bound.
pub fn partition_bound(rows: &Vec<Row>, table: &str, ty: ColumnType) -> (r: Result<
    Option<(String, PartitionBound)>,
    Error,
>)
    ensures
        match entry_from(rows.deep_view(), "part"@, table@, 0) {
            Some(i) => match row_bound(rows.deep_view()[i as int], ty) {
                Ok(b) => r matches Ok(Some((parent, x))) && parent@ == catalog::field_text(
                    rows.deep_view()[i as int],
                    2,
                ) && x.deep_view() == b,
                Err(at) => r == Err::<Option<(String, PartitionBound)>, Error>(
                    Error::MalformedTuple { offset: at as usize },
                ),
            },
            None => r == Ok::<Option<(String, PartitionBound)>, Error>(None),
        },
{
    match find_entry(rows, "part", table) {
        Some(i) => {
            assert(rows.deep_view()[i as int] == rows@[i as int].deep_view());
            match read_bound(&rows[i], ty) {
                Ok(b) => Ok(Some((field(&rows[i], 2), b))),
                Err(e) => Err(e),
            }
        },
        None => Ok(None),
    }
}

/// The partitions of `parent` among the first `n` rows, or where the first unreadable bound stops
/// making sense.
pub open spec fn partitions_in(
    rows: Seq<Seq<ValueView>>,
    parent: Seq<char>,
    ty: ColumnType,
    n: nat,
) -> Result<Seq<(Seq<char>, BoundView)>, nat>
    decreases n,
{
    if n == 0 {
        Ok(Seq::empty())
    } else {
        match partitions_in(rows, parent, ty, (n - 1) as nat) {
            Ok(head) => {
                let row = rows[n - 1];
                if catalog::field_text(row, 0) == "part"@ && catalog::field_text(row, 2) == parent {
                    match row_bound(row, ty) {
                        Ok(b) => Ok(head.push((catalog::field_text(row, 1), b))),
                        Err(at) => Err(at),
                    }
                } else {
                    Ok(head)
                }
            },
            Err(at) => Err(at),
        }
    }
}

proof fn lemma_partitions_stop(
    rows: Seq<Seq<ValueView>>,
    parent: Seq<char>,
    ty: ColumnType,
    k: nat,
    n: nat,
)
    requires
        k <= n,
        partitions_in(rows, parent, ty, k) is Err,
    ensures
        partitions_in(rows, parent, ty, n) == partitions_in(rows, parent, ty, k),
    decreases n - k,
{
    if k < n {
        lemma_partitions_stop(rows, parent, ty, k + 1, n);
    }
}

/// Every partition of `parent`, with its bound.
pub fn partitions_of(rows: &Vec<Row>, parent: &str, ty: ColumnType) -> (r: Result<
    Vec<PartitionEntry>,
    Error,
>)
    ensures
        match partitions_in(rows.deep_view(), parent@, ty, rows@.len()) {
            Ok(all) => r matches Ok(x) && x.deep_view() == all,
            Err(at) => r == Err::<Vec<PartitionEntry>, Error>(
                Error::MalformedTuple { offset: at as usize },
            ),
        },
{
    let n: usize = rows.len();
    let ghost rv = rows.deep_view();
    let mut out: Vec<PartitionEntry> = Vec::new();
    let mut i: usize = 0;
    assert(out.deep_view() =~= Seq::<(Seq<char>, BoundView)>::empty());
    while i < n
        invariant
            n == rows@.len(),
            rv == rows.deep_view(),
            i <= n,
            partitions_in(rv, parent@, ty, i as nat) == Ok::<Seq<(Seq<char>, BoundView)>, nat>(
                out.deep_view(),
            ),
        decreases n - i,
    {
        let ghost was = out.deep_view();
        assert(rv[i as int] == rows@[i as int].deep_view());
        let role = field(&rows[i], 0);
        let of = field(&rows[i], 2);
        if same_text(role.as_str(), "part") && same_text(of.as_str(), parent) {
            match read_bound(&rows[i], ty) {
                Ok(bound) => {
                    let entry = PartitionEntry { table: field(&rows[i], 1), bound };
                    out.push(entry);
                    assert(out.deep_view() =~= was.push(entry.deep_view()));
                },
                Err(e) => {
                    proof {
                        lemma_partitions_stop(rv, parent@, ty, (i + 1) as nat, n as nat);
                    }
                    return Err(e);
                },
            }
        }
        i += 1;
    }
    Ok(out)
}

/// The row goes when `table` is dropped: it names the table, as a partitioned table or as a
/// partition, or is a partition of it.
pub open spec fn goes_with(row: Seq<ValueView>, table: Seq<char>) -> bool {
    catalog::field_text(row, 1) == table || (catalog::field_text(row, 0) == "part"@
        && catalog::field_text(row, 2) == table)
}

/// The places of the rows, among the first `n`, that go when `table` is dropped.
pub open spec fn victims(rows: Seq<Seq<ValueView>>, table: Seq<char>, n: nat) -> Seq<usize>
    decreases n,
{
    if n == 0 {
        Seq::empty()
    } else if goes_with(rows[n - 1], table) {
        victims(rows, table, (n - 1) as nat).push((n - 1) as usize)
    } else {
        victims(rows, table, (n - 1) as nat)
    }
}

/// The places of the rows that go when `table` is dropped.
pub fn remove_for(rows: &Vec<Row>, table: &str) -> (r: Vec<usize>)
    ensures
        r@ == victims(rows.deep_view(), table@, rows@.len()),
{
    let n: usize = rows.len();
    let mut out: Vec<usize> = Vec::new();
    let mut i: usize = 0;
    while i < n
        invariant
            n == rows@.len(),
            i <= n,
            out@ == victims(rows.deep_view(), table@, i as nat),
        decreases n - i,
    {
        assert(rows.deep_view()[i as int] == rows@[i as int].deep_view());
        let role = field(&rows[i], 0);
        let named = field(&rows[i], 1);
        let of = field(&rows[i], 2);
        if same_text(named.as_str(), table) || (same_text(role.as_str(), "part") && same_text(
            of.as_str(),
            table,
        )) {
            out.push(i);
        }
        i += 1;
    }
    out
}

// ---------------------------------------------------------------- laws

/// Of two ranges that meet, no key belongs to both, and a key of the range they make up belongs to
/// one of them.
pub proof fn law_adjacent_ranges_divide_keys<O: ValueOrder>(
    o: &O,
    key: ValueView,
    lo: ValueView,
    mid: ValueView,
    hi: ValueView,
    hash: u64,
)
    requires
        !(o.order(lo, mid) is Greater),
        !(o.order(mid, hi) is Greater),
    ensures
        !(accepted(o, key, BoundView::Range { lo, hi: mid }, hash) && accepted(
            o,
            key,
            BoundView::Range { lo: mid, hi },
            hash,
        )),
        accepted(o, key, BoundView::Range { lo, hi }, hash) <==> (accepted(
            o,
            key,
            BoundView::Range { lo, hi: mid },
            hash,
        ) || accepted(o, key, BoundView::Range { lo: mid, hi }, hash)),
{
    o.preorder(key, mid, hi);
    o.preorder(lo, mid, key);
    o.preorder(key, lo, key);
    o.preorder(key, mid, key);
}

/// Every key that is not NULL belongs to exactly one of the hash partitions of a modulus.
pub proof fn law_hash_partitions_divide_keys<O: ValueOrder>(
    o: &O,
    key: ValueView,
    modulus: u64,
    hash: u64,
)
    requires
        modulus != 0,
        !(key is Null),
    ensures
        accepted(o, key, BoundView::Hash { modulus, remainder: hash % modulus }, hash),
        hash % modulus < modulus,
        forall|remainder: u64| #[trigger]
            accepted(o, key, BoundView::Hash { modulus, remainder }, hash) ==> remainder == hash
                % modulus,
{
}

/// NULL belongs to no range and no hash partition, and to a list exactly where the list holds it.
pub proof fn law_null_belongs_to_lists_alone<O: ValueOrder>(o: &O, bound: BoundView, hash: u64)
    ensures
        accepted(o, ValueView::Null, bound, hash) <==> bound is List && bound->List_0.contains(
            ValueView::Null,
        ),
{
    if bound is List && bound->List_0.contains(ValueView::Null) {
        let i = choose|i: int| 0 <= i < bound->List_0.len() && bound->List_0[i] == ValueView::Null;
        assert(order::not_distinct(o, ValueView::Null, bound->List_0[i]));
    }
}

/// A value that is stored as a `ty` without any conversion, and read back as it is.
#[verifier::opaque]
pub open spec fn plain_key(v: ValueView, ty: ColumnType) -> bool {
    row::settled(v, ty) && row::storable(v)
}

/// A value in hexadecimal is read back as it was.
proof fn lemma_value_round_trip(v: ValueView, ty: ColumnType, outcomes: Seq<OutcomeView>)
    requires
        plain_key(v, ty),
    ensures
        row::stored_alone(v, ty, outcomes) is Done,
        unspelled(hexed(row::stored_alone(v, ty, outcomes)->Done_bytes), ty) == Ok::<ValueView, nat>(v),
        !hexed(row::stored_alone(v, ty, outcomes)->Done_bytes).contains('|'),
{
    reveal(row::stored_alone);
    reveal(plain_key);
    reveal(unspelled);
    row::law_settled_row_round_trip(seq![v], seq![ty], outcomes);
    lemma_hex_round_trip(row::stored_alone(v, ty, outcomes)->Done_bytes);
}

proof fn lemma_values_round_trip(
    values: Seq<ValueView>,
    ty: ColumnType,
    answers: Seq<Seq<OutcomeView>>,
    n: nat,
)
    requires
        n <= values.len(),
        forall|i: int|
            0 <= i < values.len() ==> plain_key(#[trigger] values[i], ty),
    ensures
        spelling(values, ty, answers, n) matches Spelling::Done(parts) && parts.len() == n && (
        forall|i: int| 0 <= i < n ==> !(#[trigger] parts[i]).contains('|')) && (forall|i: int|
            0 <= i < n ==> unspelled(#[trigger] parts[i], ty) == Ok::<ValueView, nat>(values[i])),
    decreases n,
{
    if n > 0 {
        lemma_values_round_trip(values, ty, answers, (n - 1) as nat);
        lemma_value_round_trip(
            values[n - 1],
            ty,
            row::outcomes_at(answers, (n - 1) as nat),
        );
    }
}

proof fn lemma_unspelled_all(parts: Seq<Seq<char>>, ty: ColumnType, values: Seq<ValueView>, n: nat)
    requires
        n <= parts.len() == values.len(),
        forall|i: int|
            0 <= i < parts.len() ==> unspelled(#[trigger] parts[i], ty) == Ok::<ValueView, nat>(
                values[i],
            ),
    ensures
        unspelled_all(parts, ty, n) == Ok::<Seq<ValueView>, nat>(values.take(n as int)),
    decreases n,
{
    if n > 0 {
        lemma_unspelled_all(parts, ty, values, (n - 1) as nat);
        assert(unspelled(parts[n - 1], ty) == Ok::<ValueView, nat>(values[n - 1]));
        assert(values.take(n as int) =~= values.take(n - 1).push(values[n - 1]));
    } else {
        assert(values.take(0) =~= Seq::<ValueView>::empty());
    }
}

proof fn lemma_cut_pair(a: Seq<char>, b: Seq<char>)
    requires
        !a.contains('|'),
    ensures
        catalog::cut_at(catalog::join(seq![a, b], '|'), '|') == Some((a, b)),
{
    reveal_with_fuel(catalog::join, 3);
    assert(seq![a, b].drop_last() =~= seq![a]);
    let s = catalog::join(seq![a, b], '|');
    assert(s =~= a.push('|') + b);
    assert(catalog::first_at(s, '|', a.len() as int)) by {
        assert forall|j: int| 0 <= j < a.len() implies #[trigger] s[j] != '|' by {
            assert(s[j] == a[j]);
        }
    }
    catalog::lemma_first_at(s, '|', a.len() as int);
    assert(s.take(a.len() as int) =~= a);
    assert(s.skip(a.len() as int + 1) =~= b);
}

/// Digits are not bars.
proof fn lemma_decimal_has_no_bar(n: nat)
    ensures
        !numbers::digits(n).contains('|'),
    decreases n,
{
    if n >= 10 {
        lemma_decimal_has_no_bar(n / 10);
    }
    let s = numbers::digits(n);
    if s.contains('|') {
        let i = choose|i: int| 0 <= i < s.len() && s[i] == '|';
        if n < 10 {
            assert(numbers::digit_char(n) != '|');
        } else {
            assert(numbers::digit_char(n % 10) != '|');
            assert(numbers::digits(n / 10)[i] == '|');
        }
    }
}

proof fn lemma_kinds_differ()
    ensures
        "range"@ != "list"@,
        "range"@ != "hash"@,
        "list"@ != "hash"@,
{
    reveal_strlit("range");
    reveal_strlit("list");
    reveal_strlit("hash");
    assert("range"@.len() == 5 && "list"@.len() == 4 && "hash"@.len() == 4);
    assert("list"@[0] == 'l' && "hash"@[0] == 'h');
}

proof fn lemma_range_read(a: Seq<char>, b: Seq<char>, ty: ColumnType, lo: ValueView, hi: ValueView)
    requires
        !a.contains('|'),
        unspelled(a, ty) == Ok::<ValueView, nat>(lo),
        unspelled(b, ty) == Ok::<ValueView, nat>(hi),
    ensures
        bound_from("range"@, catalog::join(seq![a, b], '|'), ty) == Ok::<BoundView, nat>(
            BoundView::Range { lo, hi },
        ),
{
    lemma_cut_pair(a, b);
}

proof fn lemma_list_read(parts: Seq<Seq<char>>, ty: ColumnType, values: Seq<ValueView>)
    requires
        0 < parts.len() == values.len(),
        forall|i: int| 0 <= i < parts.len() ==> !(#[trigger] parts[i]).contains('|'),
        forall|i: int|
            0 <= i < parts.len() ==> unspelled(#[trigger] parts[i], ty) == Ok::<ValueView, nat>(
                values[i],
            ),
    ensures
        bound_from("list"@, catalog::join(parts, '|'), ty) == Ok::<BoundView, nat>(
            BoundView::List(values),
        ),
{
    lemma_kinds_differ();
    catalog::law_split_undoes_join(parts, '|');
    lemma_unspelled_all(parts, ty, values, parts.len());
    assert(values.take(parts.len() as int) =~= values);
}

proof fn lemma_hash_read(modulus: u64, remainder: u64, ty: ColumnType)
    ensures
        bound_from(
            "hash"@,
            catalog::join(
                seq![numbers::decimal(modulus as int), numbers::decimal(remainder as int)],
                '|',
            ),
            ty,
        ) == Ok::<BoundView, nat>(BoundView::Hash { modulus, remainder }),
{
    lemma_kinds_differ();
    lemma_decimal_has_no_bar(modulus as nat);
    lemma_cut_pair(numbers::decimal(modulus as int), numbers::decimal(remainder as int));
    numbers::law_decimal_round_trip(modulus as int);
    numbers::law_decimal_round_trip(remainder as int);
}

/// A bound is read back from the catalog as it was recorded, where its values need no conversion to
/// the key's type and a list is not empty.
pub proof fn law_bound_round_trip(b: BoundView, ty: ColumnType, answers: Seq<Seq<OutcomeView>>)
    requires
        forall|i: int|
            0 <= i < bound_values(b).len() ==> plain_key(#[trigger] bound_values(b)[i], ty),
        b is List ==> b->List_0.len() > 0,
    ensures
        bound_parts(b, ty, answers) matches Spelling::Done(parts) && bound_from(
            strategy_word(strategy_of(b)),
            catalog::join(parts, '|'),
            ty,
        ) == Ok::<BoundView, nat>(b),
{
    let values = bound_values(b);
    match b {
        BoundView::Hash { modulus, remainder } => {
            lemma_hash_read(modulus, remainder, ty);
        },
        BoundView::Range { lo, hi } => {
            lemma_values_round_trip(values, ty, answers, 2);
            let parts = spelling(values, ty, answers, 2)->Done_0;
            assert(parts =~= seq![parts[0], parts[1]]);
            assert(!parts[0].contains('|'));
            assert(unspelled(parts[1], ty) == Ok::<ValueView, nat>(hi));
            lemma_range_read(parts[0], parts[1], ty, lo, hi);
        },
        BoundView::List(vs) => {
            lemma_values_round_trip(values, ty, answers, values.len());
            let parts = spelling(values, ty, answers, values.len())->Done_0;
            lemma_list_read(parts, ty, values);
        },
    }
}

} // verus!
