//! The most common values: a bounded table of counters.
use vstd::prelude::*;
use crate::order;
use crate::order::{lex_compare, Order};

verus! {

/// A key and its count.
pub type Counter = (Seq<u8>, u64);

/// `key` is the key of one of the counters.
pub open spec fn tracked_key(table: Seq<Counter>, key: Seq<u8>) -> bool {
    exists|i: int| 0 <= i < table.len() && (#[trigger] table[i]).0 == key
}

/// The place of the counter of `key`.
pub open spec fn place_of(table: Seq<Counter>, key: Seq<u8>) -> int {
    choose|i: int| 0 <= i < table.len() && (#[trigger] table[i]).0 == key
}

/// The count of `key`; zero where it has no counter.
pub open spec fn count_of(table: Seq<Counter>, key: Seq<u8>) -> nat {
    if tracked_key(table, key) {
        table[place_of(table, key)].1 as nat
    } else {
        0
    }
}

/// No key has two counters.
pub open spec fn no_twins(table: Seq<Counter>) -> bool {
    forall|i: int, j: int|
        0 <= i < j < table.len() ==> (#[trigger] table[i]).0 != (#[trigger] table[j]).0
}

/// The counter `a` weighs less than `b`: by its count, and by its key where the counts are the same.
pub open spec fn lighter(a: Counter, b: Counter) -> bool {
    a.1 < b.1 || (a.1 == b.1 && order::lex_order(a.0, b.0) is Less)
}

/// The counter at `v` is the one to give up: the lightest of all.
pub open spec fn is_victim(table: Seq<Counter>, v: int) -> bool {
    &&& 0 <= v < table.len()
    &&& forall|j: int| 0 <= j < table.len() && j != v ==> lighter(table[v], #[trigger] table[j])
}

/// The place of the counter to give up.
pub open spec fn victim(table: Seq<Counter>) -> int {
    choose|v: int| is_victim(table, v)
}

/// The table after `key` has been offered: its counter goes up by one; a new key gets a counter
/// while there is room, and then takes over the lightest counter, one higher.
pub open spec fn offered(table: Seq<Counter>, capacity: usize, key: Seq<u8>) -> Seq<Counter> {
    if tracked_key(table, key) {
        let i = place_of(table, key);
        table.update(i, (key, (table[i].1 + 1) as u64))
    } else if table.len() < capacity {
        table.push((key, 1u64))
    } else if table.len() == 0 {
        table
    } else {
        let v = victim(table);
        table.update(v, (key, (table[v].1 + 1) as u64))
    }
}

/// The table after all the keys have been offered to an empty one.
pub open spec fn tallied(capacity: usize, keys: Seq<Seq<u8>>) -> Seq<Counter>
    decreases keys.len(),
{
    if keys.len() == 0 {
        Seq::empty()
    } else {
        offered(tallied(capacity, keys.drop_last()), capacity, keys.last())
    }
}

/// Before `b` in the list of the most common: a higher count first, then the lower key.
pub open spec fn heavier(a: Counter, b: Counter) -> bool {
    a.1 > b.1 || (a.1 == b.1 && order::lex_order(a.0, b.0) is Less)
}

/// `top` lists the (at most `k`) most common keys of the table that were counted more than once.
pub open spec fn is_top(table: Seq<Counter>, k: usize, top: Seq<Counter>) -> bool {
    &&& top.len() <= k
    &&& forall|i: int| 0 <= i < top.len() ==> table.contains(#[trigger] top[i]) && top[i].1 > 1
    &&& forall|i: int, j: int| 0 <= i < j < top.len() ==> heavier(#[trigger] top[i], #[trigger] top[j])
    &&& forall|e: int|
        0 <= e < table.len() && (#[trigger] table[e]).1 > 1 && !top.contains(table[e]) ==> top.len() == k
            && forall|i: int| 0 <= i < top.len() ==> heavier(#[trigger] top[i], table[e])
}

/// A bounded table of counters.
#[derive(Debug, PartialEq, Eq)]
pub struct SpaceSaving {
    capacity: usize,
    counters: Vec<(Vec<u8>, u64)>,
}

/// The counters as plain values.
pub open spec fn counters_view(v: Seq<(Vec<u8>, u64)>) -> Seq<Counter> {
    Seq::new(v.len(), |i: int| (v[i].0@, v[i].1))
}

impl View for SpaceSaving {
    type V = Seq<Counter>;

    closed spec fn view(&self) -> Seq<Counter> {
        counters_view(self.counters@)
    }
}

fn bytes_equal(a: &Vec<u8>, b: &Vec<u8>) -> (r: bool)
    ensures
        r == (a@ == b@),
{
    proof {
        order::lemma_lex_flip(a@, b@);
    }
    match lex_compare(a.as_slice(), b.as_slice()) {
        Order::Equal => true,
        _ => false,
    }
}

fn is_lighter(a: &(Vec<u8>, u64), b: &(Vec<u8>, u64)) -> (r: bool)
    ensures
        r == lighter((a.0@, a.1), (b.0@, b.1)),
{
    if a.1 < b.1 {
        true
    } else if a.1 > b.1 {
        false
    } else {
        match lex_compare(a.0.as_slice(), b.0.as_slice()) {
            Order::Less => true,
            _ => false,
        }
    }
}

fn is_heavier(a: &(Vec<u8>, u64), b: &(Vec<u8>, u64)) -> (r: bool)
    ensures
        r == heavier((a.0@, a.1), (b.0@, b.1)),
{
    if a.1 > b.1 {
        true
    } else if a.1 < b.1 {
        false
    } else {
        match lex_compare(a.0.as_slice(), b.0.as_slice()) {
            Order::Less => true,
            _ => false,
        }
    }
}

pub(crate) fn copy_bytes(b: &Vec<u8>) -> (r: Vec<u8>)
    ensures
        r@ == b@,
{
    let mut out: Vec<u8> = Vec::new();
    let mut i: usize = 0;
    while i < b.len()
        invariant
            i <= b@.len(),
            out@ == b@.take(i as int),
        decreases b@.len() - i,
    {
        out.push(b[i]);
        assert(out@ =~= b@.take(i + 1));
        i += 1;
    }
    assert(out@ =~= b@);
    out
}

proof fn lemma_lighter(a: Counter, b: Counter, c: Counter)
    ensures
        lighter(a, b) && lighter(b, c) ==> lighter(a, c),
        !(lighter(a, b) && lighter(b, a)),
        a.0 != b.0 ==> lighter(a, b) || lighter(b, a),
{
    order::lemma_lex_flip(a.0, b.0);
    if lighter(a, b) && lighter(b, c) && a.1 == c.1 {
        order::lemma_lex_trans(a.0, b.0, c.0);
    }
}

proof fn lemma_heavier(a: Counter, b: Counter, c: Counter)
    ensures
        heavier(a, b) && heavier(b, c) ==> heavier(a, c),
        !(heavier(a, b) && heavier(b, a)),
        a.0 != b.0 ==> heavier(a, b) || heavier(b, a),
{
    order::lemma_lex_flip(a.0, b.0);
    if heavier(a, b) && heavier(b, c) && a.1 == c.1 {
        order::lemma_lex_trans(a.0, b.0, c.0);
    }
}

pub(crate) proof fn lemma_one_victim(table: Seq<Counter>, v: int)
    requires
        is_victim(table, v),
    ensures
        victim(table) == v,
{
    let w = victim(table);
    assert(is_victim(table, w));
    if w != v {
        assert(lighter(table[v], table[w]));
        assert(lighter(table[w], table[v]));
        lemma_lighter(table[v], table[w], table[v]);
    }
}

impl SpaceSaving {
    /// The number of counters that the table can hold.
    pub closed spec fn room(&self) -> usize {
        self.capacity
    }

    /// No key has two counters, and they fit.
    pub open spec fn wf(&self) -> bool {
        no_twins(self@) && self@.len() <= self.room()
    }

    /// An empty table for `capacity` counters.
    pub fn new(capacity: usize) -> (r: SpaceSaving)
        ensures
            r.wf(),
            r.room() == capacity,
            r@ == tallied(capacity, Seq::empty()),
    {
        let r = SpaceSaving { capacity, counters: Vec::new() };
        assert(r@ =~= Seq::<Counter>::empty());
        r
    }

    /// The place of the counter of `key`.
    fn find(&self, key: &Vec<u8>) -> (r: Option<usize>)
        requires
            self.wf(),
        ensures
            match r {
                Some(i) => i < self@.len() && tracked_key(self@, key@) && i == place_of(self@, key@),
                None => !tracked_key(self@, key@),
            },
    {
        let mut i: usize = 0;
        while i < self.counters.len()
            invariant
                self.wf(),
                i <= self@.len(),
                self@.len() == self.counters@.len(),
                forall|j: int| 0 <= j < i ==> (#[trigger] self@[j]).0 != key@,
            decreases self@.len() - i,
        {
            if bytes_equal(&self.counters[i].0, key) {
                assert(self@[i as int].0 == key@);
                assert(tracked_key(self@, key@));
                return Some(i);
            }
            assert(self@[i as int].0 != key@);
            i += 1;
        }
        None
    }

    /// The place of the counter to give up.
    fn lightest(&self) -> (r: usize)
        requires
            self.wf(),
            self@.len() > 0,
        ensures
            is_victim(self@, r as int),
    {
        let mut v: usize = 0;
        let mut i: usize = 1;
        while i < self.counters.len()
            invariant
                self.wf(),
                self@.len() == self.counters@.len(),
                0 <= v < i <= self@.len(),
                forall|j: int| 0 <= j < i && j != v ==> lighter(self@[v as int], #[trigger] self@[j]),
            decreases self@.len() - i,
        {
            let ghost was = v;
            if is_lighter(&self.counters[i], &self.counters[v]) {
                v = i;
                assert forall|j: int| 0 <= j <= i && j != v implies lighter(
                    self@[v as int],
                    #[trigger] self@[j],
                ) by {
                    if j != was {
                        lemma_lighter(self@[v as int], self@[was as int], self@[j]);
                    }
                }
            } else {
                proof {
                    assert(self@[v as int].0 != self@[i as int].0);
                    lemma_lighter(self@[v as int], self@[i as int], self@[i as int]);
                }
            }
            i += 1;
        }
        v
    }

    /// Offer a key.
    pub fn offer(&mut self, key: Vec<u8>)
        requires
            old(self).wf(),
            forall|i: int| 0 <= i < old(self)@.len() ==> (#[trigger] old(self)@[i]).1 < u64::MAX,
        ensures
            final(self).wf(),
            final(self).room() == old(self).room(),
            final(self)@ == offered(old(self)@, old(self).room(), key@),
    {
        let ghost was = self@;
        if let Some(i) = self.find(&key) {
            assert(was[i as int].0 == key@);
            assert(was[i as int].1 < u64::MAX);
            let n: u64 = self.counters[i].1 + 1;
            self.counters.set(i, (key, n));
            assert(self@ =~= was.update(i as int, (key@, n)));
            return ;
        }
        if self.counters.len() < self.capacity {
            self.counters.push((key, 1));
            assert(self@ =~= was.push((key@, 1u64)));
            return ;
        }
        if self.counters.len() == 0 {
            return ;
        }
        let v: usize = self.lightest();
        proof {
            lemma_one_victim(was, v as int);
        }
        assert(was[v as int].1 < u64::MAX);
        let n: u64 = self.counters[v].1 + 1;
        self.counters.set(v, (key, n));
        assert(self@ =~= was.update(v as int, (key@, n)));
    }

    /// The (at most `k`) most common keys of those counted more than once, with their counts: the
    /// highest count first, keys of the same count in order.
    pub fn top_k(&self, k: usize) -> (r: Vec<(Vec<u8>, u64)>)
        requires
            self.wf(),
        ensures
            is_top(self@, k, counters_view(r@)),
    {
        let mut out: Vec<(Vec<u8>, u64)> = Vec::new();
        let mut done: bool = false;
        let ghost table = self@;
        while out.len() < k && !done
            invariant
                table == self@,
                no_twins(table),
                out@.len() <= k,
                table.len() == self.counters@.len(),
                forall|i: int|
                    0 <= i < out@.len() ==> table.contains(#[trigger] counters_view(out@)[i])
                        && counters_view(out@)[i].1 > 1,
                forall|i: int, j: int|
                    0 <= i < j < out@.len() ==> heavier(
                        #[trigger] counters_view(out@)[i],
                        #[trigger] counters_view(out@)[j],
                    ),
                forall|e: int|
                    0 <= e < table.len() && (#[trigger] table[e]).1 > 1 && !counters_view(
                        out@,
                    ).contains(table[e]) ==> !done && forall|i: int|
                        0 <= i < out@.len() ==> heavier(#[trigger] counters_view(out@)[i], table[e]),
            decreases k - out@.len() + if done {
                0int
            } else {
                1int
            },
        {
            let ghost top = counters_view(out@);
            match self.next_heaviest(&out) {
                None => {
                    done = true;
                },
                Some(b) => {
                    let entry = (copy_bytes(&self.counters[b].0), self.counters[b].1);
                    out.push(entry);
                    let ghost now = counters_view(out@);
                    proof {
                        assert(now =~= top.push(table[b as int]));
                        assert(table.contains(table[b as int]));
                        assert forall|i: int| 0 <= i < now.len() implies table.contains(
                            #[trigger] now[i],
                        ) && now[i].1 > 1 by {
                            if i < top.len() {
                                assert(now[i] == top[i]);
                            }
                        }
                        assert forall|i: int, j: int| 0 <= i < j < now.len() implies heavier(
                            #[trigger] now[i],
                            #[trigger] now[j],
                        ) by {
                            assert(now[i] == top[i]);
                            if j < top.len() {
                                assert(now[j] == top[j]);
                            }
                        }
                        assert forall|e: int|
                            0 <= e < table.len() && (#[trigger] table[e]).1 > 1 && !now.contains(
                                table[e],
                            ) implies !done && forall|i: int|
                            0 <= i < now.len() ==> heavier(#[trigger] now[i], table[e]) by {
                            assert(now[top.len() as int] == table[b as int]);
                            assert(e != b);
                            assert(!top.contains(table[e])) by {
                                if top.contains(table[e]) {
                                    let i = choose|i: int| 0 <= i < top.len() && top[i] == table[e];
                                    assert(now[i] == table[e]);
                                }
                            }
                            assert forall|i: int| 0 <= i < now.len() implies heavier(
                                #[trigger] now[i],
                                table[e],
                            ) by {
                                if i < top.len() {
                                    assert(now[i] == top[i]);
                                    assert(heavier(top[i], table[e]));
                                }
                            }
                        }
                    }
                },
            }
        }
        out
    }

    /// The heaviest counter of more than one that is not yet listed.
    fn next_heaviest(&self, out: &Vec<(Vec<u8>, u64)>) -> (r: Option<usize>)
        requires
            no_twins(self@),
            forall|i: int| 0 <= i < out@.len() ==> self@.contains(#[trigger] counters_view(out@)[i]),
            forall|i: int, j: int|
                0 <= i < j < out@.len() ==> heavier(
                    #[trigger] counters_view(out@)[i],
                    #[trigger] counters_view(out@)[j],
                ),
            forall|e: int|
                0 <= e < self@.len() && (#[trigger] self@[e]).1 > 1 && !counters_view(
                    out@,
                ).contains(self@[e]) ==> forall|i: int|
                    0 <= i < out@.len() ==> heavier(#[trigger] counters_view(out@)[i], self@[e]),
        ensures
            match r {
                Some(b) => {
                    &&& b < self@.len()
                    &&& self@[b as int].1 > 1
                    &&& forall|i: int|
                        0 <= i < out@.len() ==> heavier(
                            #[trigger] counters_view(out@)[i],
                            self@[b as int],
                        )
                    &&& forall|e: int|
                        0 <= e < self@.len() && e != b && (#[trigger] self@[e]).1 > 1
                            && !counters_view(out@).contains(self@[e]) ==> heavier(
                            self@[b as int],
                            self@[e],
                        )
                },
                None => forall|e: int|
                    0 <= e < self@.len() && (#[trigger] self@[e]).1 > 1 ==> counters_view(
                        out@,
                    ).contains(self@[e]),
            },
    {
        let ghost table = self@;
        let ghost top = counters_view(out@);
        let n: usize = self.counters.len();
        let m: usize = out.len();
        let mut best: Option<usize> = None;
        let mut i: usize = 0;
        while i < n
            invariant
                table == self@,
                top == counters_view(out@),
                n == self.counters@.len() == table.len(),
                m == out@.len() == top.len(),
                i <= n,
                no_twins(table),
                forall|a: int, b: int|
                    0 <= a < b < top.len() ==> heavier(#[trigger] top[a], #[trigger] top[b]),
                forall|e: int|
                    0 <= e < table.len() && (#[trigger] table[e]).1 > 1 && !top.contains(table[e])
                        ==> forall|a: int| 0 <= a < top.len() ==> heavier(#[trigger] top[a], table[e]),
                match best {
                    Some(b) => {
                        &&& b < i
                        &&& table[b as int].1 > 1
                        &&& !top.contains(table[b as int])
                        &&& forall|e: int|
                            0 <= e < i && e != b && (#[trigger] table[e]).1 > 1 && !top.contains(
                                table[e],
                            ) ==> heavier(table[b as int], table[e])
                    },
                    None => forall|e: int|
                        0 <= e < i && (#[trigger] table[e]).1 > 1 ==> top.contains(table[e]),
                },
            decreases n - i,
        {
            let ghost c = table[i as int];
            // A counter is listed already exactly if it is not lighter than the last one listed.
            let fresh: bool = self.counters[i].1 > 1 && (m == 0 || is_heavier(
                &out[m - 1],
                &self.counters[i],
            ));
            proof {
                if c.1 > 1 {
                    if top.contains(c) {
                        let a = choose|a: int| 0 <= a < top.len() && top[a] == c;
                        let z = top[m - 1];
                        lemma_heavier(z, c, c);
                        if a < m - 1 {
                            assert(heavier(top[a], top[m - 1]));
                        }
                        lemma_heavier(c, z, c);
                        assert(!fresh);
                    } else if m > 0 {
                        assert(heavier(top[m - 1], c));
                        assert(fresh);
                    }
                }
                assert(fresh == (c.1 > 1 && !top.contains(c)));
            }
            if fresh {
                match best {
                    None => {
                        best = Some(i);
                    },
                    Some(b) => {
                        if is_heavier(&self.counters[i], &self.counters[b]) {
                            best = Some(i);
                            assert forall|e: int|
                                0 <= e <= i && e != i && (#[trigger] table[e]).1 > 1
                                    && !top.contains(table[e]) implies heavier(
                                table[i as int],
                                table[e],
                            ) by {
                                if e != b {
                                    lemma_heavier(table[i as int], table[b as int], table[e]);
                                }
                            }
                        } else {
                            proof {
                                assert(table[b as int].0 != table[i as int].0);
                                lemma_heavier(table[b as int], table[i as int], c);
                            }
                        }
                    },
                }
            }
            i += 1;
        }
        best
    }
}

// ---------------------------------------------------------------- laws

/// How often `x` is among the keys.
pub open spec fn occurrences(keys: Seq<Seq<u8>>, x: Seq<u8>) -> nat
    decreases keys.len(),
{
    if keys.len() == 0 {
        0
    } else {
        occurrences(keys.drop_last(), x) + if keys.last() == x {
            1nat
        } else {
            0nat
        }
    }
}

pub(crate) proof fn lemma_place(table: Seq<Counter>, i: int)
    requires
        no_twins(table),
        0 <= i < table.len(),
    ensures
        tracked_key(table, table[i].0),
        place_of(table, table[i].0) == i,
        count_of(table, table[i].0) == table[i].1,
{
    assert(tracked_key(table, table[i].0));
    let j = place_of(table, table[i].0);
    assert(0 <= j < table.len() && table[j].0 == table[i].0);
    if j < i {
        assert(table[j].0 != table[i].0);
    }
    if i < j {
        assert(table[i].0 != table[j].0);
    }
}

proof fn lemma_victim_exists(table: Seq<Counter>, n: int) -> (v: int)
    requires
        no_twins(table),
        0 < n <= table.len(),
    ensures
        0 <= v < n,
        forall|j: int| 0 <= j < n && j != v ==> lighter(table[v], #[trigger] table[j]),
    decreases n,
{
    if n == 1 {
        0
    } else {
        let w = lemma_victim_exists(table, n - 1);
        let c = table[n - 1];
        lemma_lighter(table[w], c, c);
        lemma_lighter(c, table[w], c);
        assert(table[w].0 != table[n - 1].0);
        if lighter(c, table[w]) {
            assert forall|j: int| 0 <= j < n && j != n - 1 implies lighter(c, #[trigger] table[j]) by {
                if j != w {
                    lemma_lighter(c, table[w], table[j]);
                }
            }
            n - 1
        } else {
            w
        }
    }
}

/// How the counters stand to the keys offered.
spec fn bounded(table: Seq<Counter>, capacity: usize, keys: Seq<Seq<u8>>) -> bool {
    &&& no_twins(table)
    &&& table.len() <= capacity
    &&& forall|i: int|
        0 <= i < table.len() ==> (#[trigger] table[i]).1 <= keys.len() && occurrences(
            keys,
            table[i].0,
        ) <= table[i].1
    &&& forall|x: Seq<u8>, i: int|
        #![trigger occurrences(keys, x), table[i]]
        !tracked_key(table, x) && 0 <= i < table.len() ==> occurrences(keys, x) <= table[i].1
    &&& forall|x: Seq<u8>|
        !tracked_key(table, x) && #[trigger] occurrences(keys, x) > 0 ==> table.len() == capacity
}

proof fn lemma_tally_bounded(capacity: usize, keys: Seq<Seq<u8>>)
    requires
        keys.len() <= u64::MAX,
    ensures
        bounded(tallied(capacity, keys), capacity, keys),
    decreases keys.len(),
{
    if keys.len() > 0 {
        let head = keys.drop_last();
        let key = keys.last();
        lemma_tally_bounded(capacity, head);
        let t = tallied(capacity, head);
        let u = tallied(capacity, keys);
        if tracked_key(t, key) {
            let p = place_of(t, key);
            assert(0 <= p < t.len() && t[p].0 == key);
            assert(t[p].1 <= head.len());
            assert forall|i: int| 0 <= i < u.len() implies (#[trigger] u[i]).1 <= keys.len()
                && occurrences(keys, u[i].0) <= u[i].1 by {
                assert(t[i].1 <= head.len());
                if i != p {
                    assert(t[i].0 != key) by {
                        if i < p {
                            assert(t[i].0 != t[p].0);
                        } else {
                            assert(t[p].0 != t[i].0);
                        }
                    }
                }
            }
            assert forall|x: Seq<u8>| !tracked_key(u, x) implies !tracked_key(t, x) && x != key by {
                if tracked_key(t, x) {
                    let j = place_of(t, x);
                    assert(u[j].0 == x);
                }
                assert(u[p].0 == key);
            }
            assert forall|x: Seq<u8>, i: int|
                #![trigger occurrences(keys, x), u[i]]
                !tracked_key(u, x) && 0 <= i < u.len() implies occurrences(keys, x) <= u[i].1 by {
                assert(occurrences(head, x) <= t[i].1);
            }
            assert forall|x: Seq<u8>|
                !tracked_key(u, x) && #[trigger] occurrences(keys, x) > 0 implies u.len() == capacity by {
                assert(occurrences(head, x) > 0);
            }
            assert(bounded(u, capacity, keys));
        } else if t.len() < capacity {
            assert(occurrences(head, key) == 0);
            assert forall|i: int| 0 <= i < u.len() implies (#[trigger] u[i]).1 <= keys.len()
                && occurrences(keys, u[i].0) <= u[i].1 by {
                if i < t.len() {
                    assert(u[i] == t[i]);
                    assert(t[i].0 != key);
                }
            }
            assert forall|x: Seq<u8>| !tracked_key(u, x) implies !tracked_key(t, x) && x != key by {
                if tracked_key(t, x) {
                    let j = place_of(t, x);
                    assert(u[j].0 == x);
                }
                assert(u[t.len() as int].0 == key);
            }
            assert forall|x: Seq<u8>| !tracked_key(u, x) implies #[trigger] occurrences(keys, x) == 0 by {
                assert(occurrences(head, x) == 0);
            }
            assert(bounded(u, capacity, keys));
        } else if t.len() == 0 {
            assert(bounded(u, capacity, keys));
        } else {
            let v = lemma_victim_exists(t, t.len() as int);
            assert(is_victim(t, v));
            lemma_one_victim(t, v);
            assert(t[v].1 <= head.len());
            assert(u =~= t.update(v, (key, (t[v].1 + 1) as u64)));
            assert forall|i: int| 0 <= i < u.len() implies (#[trigger] u[i]).1 <= keys.len()
                && occurrences(keys, u[i].0) <= u[i].1 by {
                assert(t[i].1 <= head.len());
                if i != v {
                    assert(t[i].0 != key);
                } else {
                    assert(occurrences(head, key) <= t[v].1);
                }
            }
            assert(no_twins(u)) by {
                assert forall|i: int, j: int| 0 <= i < j < u.len() implies (#[trigger] u[i]).0 != (
                #[trigger] u[j]).0 by {
                    assert(t[i].0 != t[j].0);
                    assert(t[i].0 != key && t[j].0 != key);
                }
            }
            assert forall|x: Seq<u8>, i: int|
                #![trigger occurrences(keys, x), u[i]]
                !tracked_key(u, x) && 0 <= i < u.len() implies occurrences(keys, x) <= u[i].1 by {
                assert(u[v].0 == key);
                assert(x != key);
                if tracked_key(t, x) {
                    let j = place_of(t, x);
                    assert(t[j].0 == x);
                    if j != v {
                        assert(u[j].0 == x);
                    }
                    assert(j == v);
                    assert(occurrences(head, x) <= t[v].1);
                    if i != v {
                        assert(lighter(t[v], t[i]));
                    }
                } else {
                    assert(occurrences(head, x) <= t[i].1);
                }
            }
        }
    }
}

/// No count is more than the number of keys offered.
pub proof fn lemma_counts_small(capacity: usize, keys: Seq<Seq<u8>>)
    requires
        keys.len() <= u64::MAX,
    ensures
        forall|i: int|
            0 <= i < tallied(capacity, keys).len() ==> (#[trigger] tallied(capacity, keys)[i]).1
                <= keys.len(),
{
    lemma_tally_bounded(capacity, keys);
}

/// A count never falls short: the count of a key in the table is at least the number of times it
/// was offered, and a key that was offered and has no counter was offered no more often than any
/// key of the (then full) table is counted.
pub proof fn law_counts_never_fall_short(capacity: usize, keys: Seq<Seq<u8>>, x: Seq<u8>)
    requires
        keys.len() <= u64::MAX,
    ensures
        ({
            let table = tallied(capacity, keys);
            &&& no_twins(table) && table.len() <= capacity
            &&& tracked_key(table, x) ==> occurrences(keys, x) <= count_of(table, x) <= keys.len()
            &&& !tracked_key(table, x) && occurrences(keys, x) > 0 ==> table.len() == capacity
                && forall|i: int|
                0 <= i < table.len() ==> occurrences(keys, x) <= (#[trigger] table[i]).1
        }),
{
    lemma_tally_bounded(capacity, keys);
    let table = tallied(capacity, keys);
    if tracked_key(table, x) {
        lemma_place(table, place_of(table, x));
    }
}

/// The sum of the counts.
pub open spec fn weight(table: Seq<Counter>) -> nat
    decreases table.len(),
{
    if table.len() == 0 {
        0
    } else {
        weight(table.drop_last()) + table.last().1 as nat
    }
}

proof fn lemma_weight_update(table: Seq<Counter>, i: int, c: Counter)
    requires
        0 <= i < table.len(),
        c.1 == table[i].1 + 1,
    ensures
        weight(table.update(i, c)) == weight(table) + 1,
    decreases table.len(),
{
    let u = table.update(i, c);
    if i == table.len() - 1 {
        assert(u.drop_last() =~= table.drop_last());
    } else {
        assert(u.drop_last() =~= table.drop_last().update(i, c));
        lemma_weight_update(table.drop_last(), i, c);
    }
}

proof fn lemma_weight_at_least(table: Seq<Counter>, m: nat)
    requires
        forall|i: int| 0 <= i < table.len() ==> m <= (#[trigger] table[i]).1,
    ensures
        m * table.len() <= weight(table),
    decreases table.len(),
{
    if table.len() > 0 {
        let head = table.drop_last();
        assert forall|i: int| 0 <= i < head.len() implies m <= (#[trigger] head[i]).1 by {
            assert(head[i] == table[i]);
        }
        lemma_weight_at_least(head, m);
        assert(m <= table[table.len() - 1].1);
        assert(m * table.len() == m * head.len() + m) by (nonlinear_arith)
            requires
                table.len() == head.len() + 1,
        ;
    } else {
        assert(m * table.len() == 0) by (nonlinear_arith)
            requires
                table.len() == 0,
        ;
    }
}

/// By how much the count of a counter exceeds the number of times its key was offered, at most.
spec fn excess(c: Counter, keys: Seq<Seq<u8>>) -> int {
    c.1 - occurrences(keys, c.0)
}

spec fn close(table: Seq<Counter>, capacity: usize, keys: Seq<Seq<u8>>) -> bool {
    &&& weight(table) == keys.len()
    &&& forall|i: int| 0 <= i < table.len() ==> excess(#[trigger] table[i], keys) * capacity <= keys.len()
}

proof fn lemma_tally_close(capacity: usize, keys: Seq<Seq<u8>>)
    requires
        keys.len() <= u64::MAX,
        capacity > 0,
    ensures
        close(tallied(capacity, keys), capacity, keys),
    decreases keys.len(),
{
    if keys.len() > 0 {
        let head = keys.drop_last();
        let key = keys.last();
        lemma_tally_close(capacity, head);
        lemma_tally_bounded(capacity, head);
        let t = tallied(capacity, head);
        let u = tallied(capacity, keys);
        if tracked_key(t, key) {
            let p = place_of(t, key);
            assert(0 <= p < t.len() && t[p].0 == key);
            assert(t[p].1 <= head.len());
            lemma_weight_update(t, p, (key, (t[p].1 + 1) as u64));
            assert forall|i: int| 0 <= i < u.len() implies excess(#[trigger] u[i], keys) * capacity
                <= keys.len() by {
                assert(excess(t[i], head) * capacity <= head.len());
                if i != p {
                    assert(t[i].0 != key) by {
                        if i < p {
                            assert(t[i].0 != t[p].0);
                        } else {
                            assert(t[p].0 != t[i].0);
                        }
                    }
                }
                assert(excess(u[i], keys) == excess(t[i], head));
            }
        } else if t.len() < capacity {
            assert(occurrences(head, key) == 0);
            assert(u.drop_last() =~= t);
            assert forall|i: int| 0 <= i < u.len() implies excess(#[trigger] u[i], keys) * capacity
                <= keys.len() by {
                if i < t.len() {
                    assert(u[i] == t[i]);
                    assert(t[i].0 != key);
                    assert(excess(t[i], head) * capacity <= head.len());
                } else {
                    assert(excess(u[i], keys) == 0);
                }
            }
        } else {
            let v = lemma_victim_exists(t, t.len() as int);
            assert(is_victim(t, v));
            lemma_one_victim(t, v);
            assert(t[v].1 <= head.len());
            lemma_weight_update(t, v, (key, (t[v].1 + 1) as u64));
            assert forall|i: int| 0 <= i < t.len() implies t[v].1 <= (#[trigger] t[i]).1 by {
                if i != v {
                    assert(lighter(t[v], t[i]));
                }
            }
            lemma_weight_at_least(t, t[v].1 as nat);
            assert(t[v].1 * capacity <= head.len());
            assert forall|i: int| 0 <= i < u.len() implies excess(#[trigger] u[i], keys) * capacity
                <= keys.len() by {
                if i != v {
                    assert(u[i] == t[i]);
                    assert(t[i].0 != key);
                    assert(excess(t[i], head) * capacity <= head.len());
                } else {
                    let e = excess(u[v], keys);
                    let m = t[v].1;
                    assert(e <= m);
                    assert(e * capacity <= m * capacity) by (nonlinear_arith)
                        requires
                            e <= m,
                    ;
                }
            }
        }
    }
}

/// A table of `c` counters, `N` keys having been offered: the count of a key that has a counter is at
/// least the number of times it was offered and exceeds it by at most `N / c`, and every key that was
/// offered more than `N / c` times has a counter.
pub proof fn law_counts_are_close(capacity: usize, keys: Seq<Seq<u8>>, x: Seq<u8>)
    requires
        keys.len() <= u64::MAX,
        capacity > 0,
    ensures
        ({
            let table = tallied(capacity, keys);
            let share = keys.len() / capacity as nat;
            &&& tracked_key(table, x) ==> occurrences(keys, x) <= count_of(table, x) <= occurrences(
                keys,
                x,
            ) + share
            &&& occurrences(keys, x) > share ==> tracked_key(table, x)
        }),
{
    lemma_tally_bounded(capacity, keys);
    lemma_tally_close(capacity, keys);
    let table = tallied(capacity, keys);
    let f = occurrences(keys, x);
    let n = keys.len();
    let c = capacity as nat;
    if tracked_key(table, x) {
        let p = place_of(table, x);
        lemma_place(table, p);
        let e = excess(table[p], keys);
        assert(e * capacity <= n);
        assert(e <= n / c) by (nonlinear_arith)
            requires
                e * c <= n,
                c > 0,
        ;
    } else if f > n / c {
        assert(table.len() == capacity);
        assert forall|i: int| 0 <= i < table.len() implies f <= (#[trigger] table[i]).1 by {
            assert(occurrences(keys, x) <= table[i].1);
        }
        lemma_weight_at_least(table, f);
        assert(f <= n / c) by (nonlinear_arith)
            requires
                f * c <= n,
                c > 0,
        ;
    }
}

/// The keys of the counters.
spec fn names_of(table: Seq<Counter>) -> Seq<Seq<u8>> {
    Seq::new(table.len(), |i: int| table[i].0)
}

/// Every key of the table and `key` are among the names.
proof fn lemma_room_left(table: Seq<Counter>, key: Seq<u8>, names: Seq<Seq<u8>>)
    requires
        no_twins(table),
        !tracked_key(table, key),
        names.contains(key),
        forall|i: int| 0 <= i < table.len() ==> names.contains((#[trigger] table[i]).0),
        names.no_duplicates(),
    ensures
        table.len() < names.len(),
{
    let all = names_of(table).push(key);
    assert(all.no_duplicates()) by {
        assert forall|i: int, j: int| 0 <= i < j < all.len() implies all[i] != all[j] by {
            assert(all[i] == table[i].0);
            if j < table.len() {
                assert(all[j] == table[j].0);
                assert(table[i].0 != table[j].0);
            }
        }
    }
    all.unique_seq_to_set();
    names.unique_seq_to_set();
    assert(all.to_set().subset_of(names.to_set())) by {
        assert forall|x: Seq<u8>| all.to_set().contains(x) implies names.to_set().contains(x) by {
            let i = choose|i: int| 0 <= i < all.len() && all[i] == x;
            if i < table.len() {
                assert(all[i] == table[i].0);
            }
        }
    }
    vstd::set_lib::lemma_len_subset(all.to_set(), names.to_set());
}

/// Where the different keys fit in the table, every count is exact: it is the number of times the
/// key was offered.
pub proof fn law_roomy_table_counts_exactly(
    capacity: usize,
    keys: Seq<Seq<u8>>,
    names: Seq<Seq<u8>>,
    x: Seq<u8>,
)
    requires
        keys.len() <= u64::MAX,
        names.no_duplicates(),
        names.len() <= capacity,
        forall|i: int| 0 <= i < keys.len() ==> names.contains(#[trigger] keys[i]),
    ensures
        count_of(tallied(capacity, keys), x) == occurrences(keys, x),
{
    lemma_roomy(capacity, keys, names);
    let t = tallied(capacity, keys);
    if tracked_key(t, x) {
        let p = place_of(t, x);
        assert(t[p].0 == x);
        lemma_place(t, p);
    }
}

proof fn lemma_roomy(capacity: usize, keys: Seq<Seq<u8>>, names: Seq<Seq<u8>>)
    requires
        keys.len() <= u64::MAX,
        names.no_duplicates(),
        names.len() <= capacity,
        forall|i: int| 0 <= i < keys.len() ==> names.contains(#[trigger] keys[i]),
    ensures
        ({
            let t = tallied(capacity, keys);
            &&& no_twins(t)
            &&& forall|i: int|
                0 <= i < t.len() ==> names.contains((#[trigger] t[i]).0) && t[i].1 == occurrences(
                    keys,
                    t[i].0,
                )
            &&& forall|x: Seq<u8>| !tracked_key(t, x) ==> #[trigger] occurrences(keys, x) == 0
        }),
    decreases keys.len(),
{
    lemma_tally_bounded(capacity, keys);
    if keys.len() > 0 {
        let head = keys.drop_last();
        let key = keys.last();
        assert(forall|i: int| 0 <= i < head.len() ==> head[i] == keys[i]);
        assert(names.contains(key)) by {
            assert(keys[keys.len() - 1] == key);
        }
        lemma_roomy(capacity, head, names);
        lemma_tally_bounded(capacity, head);
        let t = tallied(capacity, head);
        let u = tallied(capacity, keys);
        if tracked_key(t, key) {
            let p = place_of(t, key);
            assert(t[p].0 == key && t[p].1 <= head.len());
            assert forall|i: int| 0 <= i < u.len() implies names.contains((#[trigger] u[i]).0)
                && u[i].1 == occurrences(keys, u[i].0) by {
                assert(names.contains(t[i].0));
                if i != p {
                    assert(u[i].0 != u[p].0) by {
                        if i < p {
                            assert(u[i].0 != u[p].0);
                        } else {
                            assert(u[p].0 != u[i].0);
                        }
                    }
                }
            }
            assert forall|x: Seq<u8>| !tracked_key(u, x) implies #[trigger] occurrences(keys, x) == 0 by {
                assert(u[p].0 == key);
                if tracked_key(t, x) {
                    let j = place_of(t, x);
                    assert(u[j].0 == x);
                }
                assert(occurrences(head, x) == 0);
            }
        } else {
            lemma_room_left(t, key, names);
            assert(occurrences(head, key) == 0);
            assert forall|i: int| 0 <= i < u.len() implies names.contains((#[trigger] u[i]).0)
                && u[i].1 == occurrences(keys, u[i].0) by {
                if i < t.len() {
                    assert(u[i] == t[i]);
                    assert(t[i].0 != key);
                }
            }
            assert forall|x: Seq<u8>| !tracked_key(u, x) implies #[trigger] occurrences(keys, x) == 0 by {
                assert(u[t.len() as int].0 == key);
                if tracked_key(t, x) {
                    let j = place_of(t, x);
                    assert(u[j].0 == x);
                }
                assert(occurrences(head, x) == 0);
            }
        }
    }
}

} // verus!
