//! The table engine: a slot store that keeps insertion order, with
//! tombstones for removed entries, and an open-addressing index over it.
use vstd::prelude::*;
use vstd::set_lib::{lemma_int_range, lemma_len_subset, lemma_map_size_bound, set_int_range};
use crate::value::{hash_of, Val, Value, DictError};

verus! {

/// A live entry as the model sees it: key and value.
pub type Pair = (Val, Val);

/// The live entries of a slot sequence, in slot order.
pub open spec fn live(s: Seq<Option<Pair>>) -> Seq<Pair>
    decreases s.len(),
{
    if s.len() == 0 {
        Seq::empty()
    } else {
        match s.last() {
            Some(x) => live(s.drop_last()).push(x),
            None => live(s.drop_last()),
        }
    }
}

/// Number of live entries before slot `p`.
pub open spec fn rank(s: Seq<Option<Pair>>, p: int) -> int {
    live(s.take(p)).len() as int
}

pub open spec fn keys_of(e: Seq<Pair>) -> Seq<Val> {
    e.map_values(|x: Pair| x.0)
}

pub open spec fn distinct_keys(e: Seq<Pair>) -> bool {
    forall|i: int, j: int| 0 <= i < e.len() && 0 <= j < e.len() && i != j ==> e[i].0 != e[j].0
}

/// Position of the entry with key `k`, or -1.
pub open spec fn key_index(e: Seq<Pair>, k: Val) -> int
    decreases e.len(),
{
    if e.len() == 0 {
        -1
    } else if e.last().0 == k {
        e.len() - 1
    } else {
        key_index(e.drop_last(), k)
    }
}

pub open spec fn lookup(e: Seq<Pair>, k: Val) -> Option<Val> {
    let i = key_index(e, k);
    if i >= 0 { Some(e[i].1) } else { None }
}

/// Entries after storing `v` under `k`: in place when present, else at the end.
pub open spec fn insert_spec(e: Seq<Pair>, k: Val, v: Val) -> Seq<Pair> {
    let i = key_index(e, k);
    if i >= 0 { e.update(i, (k, v)) } else { e.push((k, v)) }
}

/// Entries after storing each pair in turn.
pub open spec fn insert_all(e: Seq<Pair>, ps: Seq<Pair>) -> Seq<Pair>
    decreases ps.len(),
{
    if ps.len() == 0 {
        e
    } else {
        let prev = insert_all(e, ps.drop_last());
        insert_spec(prev, ps.last().0, ps.last().1)
    }
}

/// Entries after removing the one with key `k`, if any.
pub open spec fn remove_spec(e: Seq<Pair>, k: Val) -> Seq<Pair> {
    let i = key_index(e, k);
    if i >= 0 { e.remove(i) } else { e }
}

pub proof fn lemma_live_push(s: Seq<Option<Pair>>, x: Option<Pair>)
    ensures
        live(s.push(x)) == match x {
            Some(y) => live(s).push(y),
            None => live(s),
        },
{
    assert(s.push(x).drop_last() =~= s);
}

pub proof fn lemma_live_concat(a: Seq<Option<Pair>>, b: Seq<Option<Pair>>)
    ensures
        live(a + b) == live(a) + live(b),
    decreases b.len(),
{
    if b.len() == 0 {
        assert(a + b =~= a);
        assert(live(a) + live(b) =~= live(a));
    } else {
        lemma_live_concat(a, b.drop_last());
        assert((a + b).drop_last() =~= a + b.drop_last());
        match b.last() {
            Some(y) => {
                assert(live(a) + live(b.drop_last()).push(y) =~= (live(a) + live(b.drop_last())).push(y));
            },
            None => {},
        }
    }
}

/// The live entries around slot `p`.
pub proof fn lemma_live_split(s: Seq<Option<Pair>>, p: int)
    requires
        0 <= p < s.len(),
    ensures
        live(s) == live(s.take(p)) + live(seq![s[p]]) + live(s.skip(p + 1)),
        live(seq![s[p]]) == match s[p] {
            Some(y) => seq![y],
            None => Seq::<Pair>::empty(),
        },
{
    assert(s =~= s.take(p) + seq![s[p]] + s.skip(p + 1));
    lemma_live_concat(s.take(p) + seq![s[p]], s.skip(p + 1));
    lemma_live_concat(s.take(p), seq![s[p]]);
    assert(seq![s[p]].drop_last() =~= Seq::<Option<Pair>>::empty());
    assert(live(seq![s[p]].drop_last()) =~= Seq::<Pair>::empty());
    match s[p] {
        Some(y) => { assert(Seq::<Pair>::empty().push(y) =~= seq![y]); },
        None => {},
    }
}

/// A live slot holds the entry at its rank.
pub proof fn lemma_live_at(s: Seq<Option<Pair>>, p: int)
    requires
        0 <= p < s.len(),
        s[p] is Some,
    ensures
        0 <= rank(s, p) < live(s).len(),
        live(s)[rank(s, p)] == s[p]->0,
{
    lemma_live_split(s, p);
}

/// Each live entry stands in a slot of that rank.
pub proof fn lemma_live_source(s: Seq<Option<Pair>>, i: int)
    requires
        0 <= i < live(s).len(),
    ensures
        exists|p: int| 0 <= p < s.len() && s[p] == Some(live(s)[i]) && rank(s, p) == i,
    decreases s.len(),
{
    let t = s.drop_last();
    let q = s.len() - 1;
    assert(s.take(q) =~= t);
    if i < live(t).len() {
        lemma_live_source(t, i);
        let p = choose|p: int| 0 <= p < t.len() && t[p] == Some(live(t)[i]) && rank(t, p) == i;
        assert(s.take(p) =~= t.take(p));
        assert(s[p] == Some(live(s)[i]));
    } else {
        assert(s[q] == Some(live(s)[i]));
    }
}

/// Changing the value of a live slot changes the entry at its rank.
pub proof fn lemma_live_update(s: Seq<Option<Pair>>, p: int, y: Pair)
    requires
        0 <= p < s.len(),
        s[p] is Some,
    ensures
        live(s.update(p, Some(y))) == live(s).update(rank(s, p), y),
        rank(s.update(p, Some(y)), p) == rank(s, p),
{
    let u = s.update(p, Some(y));
    lemma_live_split(s, p);
    lemma_live_split(u, p);
    assert(u.take(p) =~= s.take(p));
    assert(u.skip(p + 1) =~= s.skip(p + 1));
    assert(live(u) =~= live(s).update(rank(s, p), y));
}

/// Turning a live slot into a tombstone removes the entry at its rank.
pub proof fn lemma_live_tombstone(s: Seq<Option<Pair>>, p: int)
    requires
        0 <= p < s.len(),
        s[p] is Some,
    ensures
        live(s.update(p, None)) == live(s).remove(rank(s, p)),
{
    let u = s.update(p, None);
    lemma_live_split(s, p);
    lemma_live_split(u, p);
    assert(u.take(p) =~= s.take(p));
    assert(u.skip(p + 1) =~= s.skip(p + 1));
    assert(live(u) =~= live(s).remove(rank(s, p)));
}

pub proof fn lemma_key_index_found(e: Seq<Pair>, i: int)
    requires
        distinct_keys(e),
        0 <= i < e.len(),
    ensures
        key_index(e, e[i].0) == i,
    decreases e.len(),
{
    if i < e.len() - 1 {
        lemma_key_index_found(e.drop_last(), i);
    }
}

pub proof fn lemma_key_index_absent(e: Seq<Pair>, k: Val)
    requires
        forall|i: int| 0 <= i < e.len() ==> e[i].0 != k,
    ensures
        key_index(e, k) == -1,
    decreases e.len(),
{
    if e.len() > 0 {
        lemma_key_index_absent(e.drop_last(), k);
    }
}

pub proof fn lemma_key_index_range(e: Seq<Pair>, k: Val)
    ensures
        -1 <= key_index(e, k) < e.len(),
        key_index(e, k) >= 0 ==> e[key_index(e, k)].0 == k,
        key_index(e, k) == -1 ==> forall|i: int| 0 <= i < e.len() ==> e[i].0 != k,
    decreases e.len(),
{
    if e.len() > 0 {
        lemma_key_index_range(e.drop_last(), k);
        if e.last().0 != k && key_index(e, k) == -1 {
            assert forall|i: int| 0 <= i < e.len() implies e[i].0 != k by {
                if i < e.len() - 1 {
                    assert(e.drop_last()[i] == e[i]);
                }
            }
        }
    }
}

/// Storing a key keeps the keys distinct.
pub proof fn lemma_insert_distinct(e: Seq<Pair>, k: Val, v: Val)
    requires
        distinct_keys(e),
    ensures
        distinct_keys(insert_spec(e, k, v)),
        lookup(insert_spec(e, k, v), k) == Some(v),
{
    lemma_key_index_range(e, k);
    let r = insert_spec(e, k, v);
    if key_index(e, k) >= 0 {
        lemma_key_index_found(r, key_index(e, k));
    } else {
        lemma_key_index_found(r, e.len() as int);
    }
}

/// All-tombstone slots hold no live entry.
pub proof fn lemma_live_all_none(s: Seq<Option<Pair>>)
    requires
        forall|p: int| 0 <= p < s.len() ==> s[p] is None,
    ensures
        live(s) == Seq::<Pair>::empty(),
    decreases s.len(),
{
    if s.len() > 0 {
        lemma_live_all_none(s.drop_last());
    }
}

/// The live entries from slot `a` on, when the first live one is at `p`.
pub proof fn lemma_live_from(s: Seq<Option<Pair>>, a: int, p: int)
    requires
        0 <= a <= p < s.len(),
        s[p] is Some,
        forall|q: int| a <= q < p ==> s[q] is None,
    ensures
        live(s.skip(a)) == seq![s[p]->0] + live(s.skip(p + 1)),
{
    let t = s.skip(a);
    lemma_live_split(t, p - a);
    lemma_live_all_none(t.take(p - a));
    assert(t.skip(p - a + 1) =~= s.skip(p + 1));
    assert(live(t) =~= seq![s[p]->0] + live(s.skip(p + 1)));
}

/// A table with no free bucket has at least as many slots as buckets.
proof fn lemma_index_full(index: Seq<Option<usize>>, bucket_of: Seq<int>, n: int)
    requires
        0 <= n,
        forall|b: int| 0 <= b < index.len() ==> #[trigger] index[b] is Some && (index[b]->0 as int) < n && bucket_of[index[b]->0 as int] == b,
    ensures
        index.len() <= n,
{
    let f = |p: int| bucket_of[p];
    let dom = set_int_range(0, n);
    let all = set_int_range(0, index.len() as int);
    lemma_int_range(0, n);
    lemma_int_range(0, index.len() as int);
    lemma_map_size_bound(dom, dom.map(f), f);
    assert forall|b: int| all.contains(b) implies dom.map(f).contains(b) by {
        assert(index[b] is Some);
        let p = index[b]->0 as int;
        assert(dom.contains(p) && f(p) == b);
    }
    lemma_len_subset(all, dom.map(f));
}

/// Most live entries a table is asked to hold; it keeps the sizes of the
/// rebuilt index, and the arithmetic on them, far inside `usize`.
pub const MAX_LIVE: usize = 0x1000_0000;

/// Largest index a table builds: the one for `MAX_LIVE` entries.
pub const MAX_CAPACITY: usize = 0x4000_0008;

/// Number of buckets of an empty table.
pub const MIN_CAPACITY: usize = 8;

/// Bucket visited at step `j` of the probe sequence for hash `h`.
pub open spec fn probe(h: u64, cap: int, j: int) -> int {
    let a = h as int % cap;
    if a + j < cap { a + j } else { a + j - cap }
}

/// A stored entry with its cached hash.
pub struct DictEntry {
    hash: u64,
    key: Value,
    value: Value,
}

/// The counters that iterators compare to notice structural change:
/// live entries, and slots in use including tombstones.
#[derive(Clone, Copy, Debug, PartialEq, Eq, Structural)]
pub struct DictSize {
    pub used: usize,
    pub filled: usize,
}

/// The table engine.
pub struct Dict {
    slots: Vec<Option<DictEntry>>,
    index: Vec<Option<usize>>,
    used: usize,
    bucket_of: Ghost<Seq<int>>,
    dist: Ghost<Seq<int>>,
}

pub open spec fn opt_view(o: Option<Value>) -> Option<Val> {
    match o {
        Some(v) => Some(v@),
        None => None,
    }
}

impl View for Dict {
    type V = Seq<Option<Pair>>;

    closed spec fn view(&self) -> Seq<Option<Pair>> {
        self.slots@.map_values(|s: Option<DictEntry>| match s {
            Some(e) => Some((e.key@, e.value@)),
            None => None,
        })
    }
}

fn bucket(h: u64, cap: usize, j: usize) -> (b: usize)
    requires
        0 < cap <= MAX_CAPACITY,
        j < cap,
    ensures
        b == probe(h, cap as int, j as int),
{
    let a = (h % (cap as u64)) as usize;
    if a + j < cap { a + j } else { a + j - cap }
}

impl Dict {
    closed spec fn entry_ok(&self, p: int) -> bool {
        let e = self.slots@[p]->0;
        let cap = self.index@.len() as int;
        &&& hash_of(e.key@) == Some(e.hash)
        &&& 0 <= self.dist@[p] < cap
        &&& probe(e.hash, cap, self.dist@[p]) == self.bucket_of@[p]
        &&& forall|j: int| 0 <= j < self.dist@[p] ==> (#[trigger] self.index@[probe(e.hash, cap, j)]) is Some
    }

    /// The table's invariant: the index finds every live entry along its
    /// probe sequence, keys are distinct, and the counters are right.
    pub closed spec fn wf(&self) -> bool {
        let cap = self.index@.len() as int;
        let n = self.slots@.len() as int;
        &&& 0 < cap <= MAX_CAPACITY
        &&& n < cap
        &&& self.bucket_of@.len() == n
        &&& self.dist@.len() == n
        &&& forall|b: int| 0 <= b < cap && (#[trigger] self.index@[b]) is Some ==>
            (self.index@[b]->0 as int) < n && self.bucket_of@[self.index@[b]->0 as int] == b
        &&& forall|p: int| 0 <= p < n ==> 0 <= #[trigger] self.bucket_of@[p] < cap
            && self.index@[self.bucket_of@[p]] == Some(p as usize)
        &&& forall|p: int| 0 <= p < n && (#[trigger] self.slots@[p]) is Some ==> self.entry_ok(p)
        &&& distinct_keys(live(self@))
        &&& self.used == live(self@).len()
    }

    /// The live entries in insertion order.
    pub open spec fn entries(&self) -> Seq<Pair> {
        live(self@)
    }

    pub proof fn lemma_wf(&self)
        requires
            self.wf(),
        ensures
            distinct_keys(self.entries()),
            self.entries().len() <= self@.len(),
            forall|i: int| 0 <= i < self.entries().len() ==> hash_of(#[trigger] self.entries()[i].0) is Some,
    {
        self.lemma_view_len();
        assert forall|i: int| 0 <= i < self.entries().len() implies hash_of(#[trigger] self.entries()[i].0) is Some by {
            lemma_live_source(self@, i);
            let p = choose|p: int| 0 <= p < self@.len() && self@[p] == Some(live(self@)[i]) && rank(self@, p) == i;
            assert(self.slots@[p] is Some);
            assert(self.entry_ok(p));
        }
        self.lemma_live_len();
    }

    proof fn lemma_view_len(&self)
        ensures
            self@.len() == self.slots@.len(),
            forall|p: int| 0 <= p < self.slots@.len() ==> (#[trigger] self@[p] is Some) == (self.slots@[p] is Some),
            forall|p: int| 0 <= p < self.slots@.len() && self.slots@[p] is Some ==>
                (#[trigger] self@[p]) == Some((self.slots@[p]->0.key@, self.slots@[p]->0.value@)),
    {
    }

    proof fn lemma_live_len(&self)
        ensures
            live(self@).len() <= self@.len(),
    {
        lemma_live_len(self@);
    }

    fn with_capacity(cap: usize) -> (r: Dict)
        requires
            0 < cap <= MAX_CAPACITY,
        ensures
            r.wf(),
            r@ == Seq::<Option<Pair>>::empty(),
            r.index@.len() == cap,
    {
        let mut index: Vec<Option<usize>> = Vec::new();
        let mut i: usize = 0;
        while i < cap
            invariant
                i <= cap,
                index@.len() == i,
                forall|b: int| 0 <= b < i ==> (#[trigger] index@[b]) is None,
            decreases cap - i,
        {
            index.push(None);
            i = i + 1;
        }
        let r = Dict { slots: Vec::new(), index, used: 0, bucket_of: Ghost(Seq::empty()), dist: Ghost(Seq::empty()) };
        assert(r@ =~= Seq::<Option<Pair>>::empty());
        r
    }

    /// An empty table.
    pub fn new() -> (r: Dict)
        ensures
            r.wf(),
            r@ == Seq::<Option<Pair>>::empty(),
    {
        Dict::with_capacity(MIN_CAPACITY)
    }

    /// A free bucket on the probe sequence of `h`, and how far along it is.
    fn find_empty(&self, h: u64) -> (r: (usize, Ghost<int>))
        requires
            self.wf(),
        ensures
            r.0 < self.index@.len(),
            self.index@[r.0 as int] is None,
            0 <= r.1@ < self.index@.len(),
            probe(h, self.index@.len() as int, r.1@) == r.0,
            forall|j: int| 0 <= j < r.1@ ==> (#[trigger] self.index@[probe(h, self.index@.len() as int, j)]) is Some,
    {
        let cap = self.index.len();
        let mut j: usize = 0;
        loop
            invariant
                self.wf(),
                cap == self.index@.len(),
                j < cap,
                forall|i: int| 0 <= i < j ==> (#[trigger] self.index@[probe(h, cap as int, i)]) is Some,
            decreases cap - j,
        {
            let b = bucket(h, cap, j);
            if self.index[b].is_none() {
                return (b, Ghost(j as int));
            }
            proof {
                if j + 1 == cap {
                    let a = h as int % cap as int;
                    assert forall|c: int| 0 <= c < cap implies #[trigger] self.index@[c] is Some
                        && (self.index@[c]->0 as int) < self.slots@.len()
                        && self.bucket_of@[self.index@[c]->0 as int] == c by {
                        let i = if c >= a { c - a } else { c + cap - a };
                        assert(probe(h, cap as int, i) == c);
                    }
                    lemma_index_full(self.index@, self.bucket_of@, self.slots@.len() as int);
                }
            }
            j = j + 1;
        }
    }

    /// Position of the live slot holding `key`, found along its probe sequence.
    fn find(&self, key: &Value, h: u64) -> (r: Option<usize>)
        requires
            self.wf(),
            hash_of(key@) == Some(h),
        ensures
            match r {
                Some(p) => p < self@.len() && self@[p as int] is Some && self@[p as int].unwrap().0 == key@,
                None => forall|p: int| 0 <= p < self@.len() && self@[p] is Some ==> self@[p].unwrap().0 != key@,
            },
    {
        proof { self.lemma_view_len(); }
        let cap = self.index.len();
        let mut j: usize = 0;
        while j < cap
            invariant
                self.wf(),
                hash_of(key@) == Some(h),
                cap == self.index@.len(),
                j <= cap,
                forall|p: int| 0 <= p < self.slots@.len() && (#[trigger] self.slots@[p]) is Some
                    && self.slots@[p]->0.key@ == key@ ==> self.dist@[p] >= j,
            decreases cap - j,
        {
            let b = bucket(h, cap, j);
            match self.index[b] {
                None => {
                    proof {
                        assert forall|p: int| 0 <= p < self@.len() && self@[p] is Some implies self@[p].unwrap().0 != key@ by {
                            assert(self.slots@[p] is Some);
                            if self.slots@[p]->0.key@ == key@ {
                                assert(self.entry_ok(p));
                                if self.dist@[p] > j {
                                    assert(self.index@[probe(h, cap as int, j as int)] is Some);
                                }
                            }
                        }
                    }
                    return None;
                },
                Some(q) => {
                    match &self.slots[q] {
                        Some(e) => {
                            if e.key.equals(key) {
                                return Some(q);
                            }
                        },
                        None => {},
                    }
                    proof {
                        assert forall|p: int| 0 <= p < self.slots@.len() && (#[trigger] self.slots@[p]) is Some
                            && self.slots@[p]->0.key@ == key@ implies self.dist@[p] >= j + 1 by {
                            assert(self.entry_ok(p));
                            if self.dist@[p] == j {
                                assert(self.bucket_of@[p] == b);
                            }
                        }
                    }
                },
            }
            j = j + 1;
        }
        proof {
            assert forall|p: int| 0 <= p < self@.len() && self@[p] is Some implies self@[p].unwrap().0 != key@ by {
                assert(self.slots@[p] is Some);
                if self.slots@[p]->0.key@ == key@ {
                    assert(self.entry_ok(p));
                }
            }
        }
        None
    }
}

impl Dict {
    /// Appends an entry whose key is absent, registering it in a free bucket.
    fn push_new(&mut self, entry: DictEntry)
        requires
            old(self).wf(),
            old(self).slots@.len() + 1 < old(self).index@.len(),
            hash_of(entry.key@) == Some(entry.hash),
            forall|i: int| 0 <= i < live(old(self)@).len() ==> live(old(self)@)[i].0 != entry.key@,
        ensures
            final(self).wf(),
            final(self)@ == old(self)@.push(Some((entry.key@, entry.value@))),
            final(self).index@.len() == old(self).index@.len(),
    {
        let ghost old_self = *self;
        let ghost kv = (entry.key@, entry.value@);
        let n = self.slots.len();
        let (b, d) = self.find_empty(entry.hash);
        self.index.set(b, Some(n));
        self.slots.push(Some(entry));
        proof { lemma_live_len(old_self@); }
        self.used = self.used + 1;
        proof {
            self.bucket_of@ = self.bucket_of@.push(b as int);
            self.dist@ = self.dist@.push(d@);
            assert(self@ =~= old_self@.push(Some(kv)));
            lemma_live_push(old_self@, Some(kv));
            let cap = self.index@.len() as int;
            assert forall|b2: int| 0 <= b2 < cap && (#[trigger] self.index@[b2]) is Some implies
                (self.index@[b2]->0 as int) < self.slots@.len() && self.bucket_of@[self.index@[b2]->0 as int] == b2 by {
                if b2 != b {
                    assert(old_self.index@[b2] is Some);
                }
            }
            assert forall|p: int| 0 <= p < self.slots@.len() implies 0 <= #[trigger] self.bucket_of@[p] < cap
                && self.index@[self.bucket_of@[p]] == Some(p as usize) by {
                if p < n {
                    assert(old_self.index@[old_self.bucket_of@[p]] == Some(p as usize));
                }
            }
            assert forall|p: int| 0 <= p < self.slots@.len() && (#[trigger] self.slots@[p]) is Some implies self.entry_ok(p) by {
                if p < n {
                    assert(old_self.slots@[p] is Some);
                    assert(old_self.entry_ok(p));
                    let e = self.slots@[p]->0;
                    assert forall|j: int| 0 <= j < self.dist@[p] implies (#[trigger] self.index@[probe(e.hash, cap, j)]) is Some by {
                        assert(old_self.index@[probe(e.hash, cap, j)] is Some);
                    }
                } else {
                    let e = self.slots@[p]->0;
                    assert forall|j: int| 0 <= j < self.dist@[p] implies (#[trigger] self.index@[probe(e.hash, cap, j)]) is Some by {
                        assert(old_self.index@[probe(e.hash, cap, j)] is Some);
                    }
                }
            }
            let l = live(self@);
            assert forall|i: int, j: int| 0 <= i < l.len() && 0 <= j < l.len() && i != j implies l[i].0 != l[j].0 by {
                if i < l.len() - 1 && j < l.len() - 1 {
                    assert(live(old_self@)[i] == l[i] && live(old_self@)[j] == l[j]);
                } else if i < l.len() - 1 {
                    assert(live(old_self@)[i] == l[i]);
                } else {
                    assert(live(old_self@)[j] == l[j]);
                }
            }
        }
    }

    /// Rebuilds the table from its live entries in order, dropping tombstones,
    /// with room to spare for one more entry.
    fn resize(&mut self)
        requires
            old(self).wf(),
            live(old(self)@).len() < MAX_LIVE,
        ensures
            final(self).wf(),
            live(final(self)@) == live(old(self)@),
            final(self)@.len() == live(final(self)@).len(),
            final(self).slots@.len() + 1 < final(self).index@.len(),
    {
        let new_cap: usize = self.used * 4 + MIN_CAPACITY;
        let mut t = Dict::with_capacity(new_cap);
        let n = self.slots.len();
        proof { self.lemma_view_len(); }
        let mut i: usize = 0;
        while i < n
            invariant
                self.wf(),
                n == self.slots@.len(),
                i <= n,
                t.wf(),
                t.index@.len() == new_cap,
                new_cap == self.used * 4 + MIN_CAPACITY,
                live(t@) == live(self@.take(i as int)),
                t@.len() == live(t@).len(),
            decreases n - i,
        {
            proof {
                self.lemma_view_len();
                t.lemma_view_len();
                lemma_live_push(self@.take(i as int), self@[i as int]);
                assert(self@.take(i + 1) =~= self@.take(i as int).push(self@[i as int]));
            }
            match &self.slots[i] {
                Some(e) => {
                    proof {
                        assert(self.entry_ok(i as int));
                        lemma_live_at(self@, i as int);
                        lemma_live_concat(self@.take(i as int), self@.skip(i as int));
                        assert(self@ =~= self@.take(i as int) + self@.skip(i as int));
                        let l = live(self@);
                        let r = rank(self@, i as int);
                        assert forall|k: int| 0 <= k < live(t@).len() implies live(t@)[k].0 != e.key@ by {
                            assert(live(t@)[k] == l[k]);
                            assert(l[r].0 == e.key@);
                        }
                    }
                    let entry = DictEntry { hash: e.hash, key: e.key.copied(), value: e.value.copied() };
                    let ghost old_t = t@;
                    t.push_new(entry);
                    proof {
                        lemma_live_push(old_t, Some(self@[i as int].unwrap()));
                        assert(self@[i as int] == Some(self@[i as int].unwrap()));
                    }
                },
                None => {
                proof { assert(self@[i as int] is None); }
            },
            }
            i = i + 1;
        }
        proof {
            assert(self@.take(n as int) =~= self@);
        }
        *self = t;
    }

    /// Stores `value` under `key`: in place when the key is present, else as
    /// a new entry at the end of the order.
    pub fn insert(&mut self, key: Value, value: Value) -> (r: Result<(), DictError>)
        requires
            old(self).wf(),
            old(self).entries().len() < MAX_LIVE,
        ensures
            final(self).wf(),
            match hash_of(key@) {
                None => r == Err::<(), DictError>(DictError::Unhashable) && final(self)@ == old(self)@,
                Some(_) => r is Ok && final(self).entries() == insert_spec(old(self).entries(), key@, value@),
            },
            key_index(old(self).entries(), key@) >= 0 ==> exists|p: int| 0 <= p < old(self)@.len()
                && old(self)@[p] is Some && old(self)@[p].unwrap().0 == key@
                && final(self)@ == old(self)@.update(p, Some((key@, value@))),
            key_index(old(self).entries(), key@) < 0 && hash_of(key@) is Some ==>
                final(self).entries().len() == old(self).entries().len() + 1,
    {
        proof {
            self.lemma_wf();
            lemma_key_index_range(self.entries(), key@);
        }
        let h = match key.hash() {
            Ok(h) => h,
            Err(e) => return Err(e),
        };
        let ghost old_self = *self;
        let ghost kv = (key@, value@);
        proof { self.lemma_view_len(); }
        match self.find(&key, h) {
            Some(p) => {
                let ghost pi = p as int;
                self.slots.set(p, Some(DictEntry { hash: h, key, value }));
                proof {
                    assert(self@ =~= old_self@.update(pi, Some(kv)));
                    lemma_live_update(old_self@, pi, kv);
                    lemma_live_at(old_self@, pi);
                    let r = rank(old_self@, pi);
                    lemma_key_index_found(live(old_self@), r);
                    assert(live(old_self@)[r].0 == kv.0);
                    assert(key_index(live(old_self@), kv.0) == r);
                    assert(self.entries() == insert_spec(old_self.entries(), kv.0, kv.1));
                    assert(self.entry_ok(pi));
                    assert forall|q: int| 0 <= q < self.slots@.len() && (#[trigger] self.slots@[q]) is Some implies self.entry_ok(q) by {
                        if q != pi {
                            assert(old_self.slots@[q] is Some);
                            assert(old_self.entry_ok(q));
                        }
                    }
                    let l = live(self@);
                    assert forall|i: int, j: int| 0 <= i < l.len() && 0 <= j < l.len() && i != j implies l[i].0 != l[j].0 by {
                        assert(live(old_self@)[i].0 == l[i].0);
                        assert(live(old_self@)[j].0 == l[j].0);
                    }
                }
            },
            None => {
                proof {
                    assert forall|i: int| 0 <= i < live(old_self@).len() implies live(old_self@)[i].0 != kv.0 by {
                        lemma_live_source(old_self@, i);
                    }
                    lemma_key_index_absent(live(old_self@), kv.0);
                    assert(insert_spec(old_self.entries(), kv.0, kv.1) == live(old_self@).push(kv));
                }
                let n = self.slots.len() as u64;
                let cap = self.index.len() as u64;
                if (n + 1) * 3 > cap * 2 {
                    self.resize();
                }
                let ghost mid = self@;
                self.push_new(DictEntry { hash: h, key, value });
                proof {
                    lemma_live_push(mid, Some(kv));
                }
            },
        }
        Ok(())
    }
}

impl Dict {
    /// Turns live slot `p` into a tombstone and hands back its entry.
    fn take_slot(&mut self, p: usize) -> (r: (Value, Value))
        requires
            old(self).wf(),
            p < old(self)@.len(),
            old(self)@[p as int] is Some,
        ensures
            final(self).wf(),
            final(self)@ == old(self)@.update(p as int, None),
            (r.0@, r.1@) == old(self)@[p as int].unwrap(),
            final(self).entries() == old(self).entries().remove(rank(old(self)@, p as int)),
    {
        let ghost old_self = *self;
        proof {
            self.lemma_view_len();
            lemma_live_at(self@, p as int);
            lemma_live_tombstone(self@, p as int);
        }
        self.slots.push(None);
        let e = self.slots.swap_remove(p);
        self.used = self.used - 1;
        proof {
            assert(self.slots@ =~= old_self.slots@.update(p as int, None));
            assert(self@ =~= old_self@.update(p as int, None));
            assert forall|q: int| 0 <= q < self.slots@.len() && (#[trigger] self.slots@[q]) is Some implies self.entry_ok(q) by {
                assert(old_self.slots@[q] is Some);
                assert(old_self.entry_ok(q));
            }
            let l = live(self@);
            let r = rank(old_self@, p as int);
            assert forall|i: int, j: int| 0 <= i < l.len() && 0 <= j < l.len() && i != j implies l[i].0 != l[j].0 by {
                let i2 = if i < r { i } else { i + 1 };
                let j2 = if j < r { j } else { j + 1 };
                assert(l[i] == live(old_self@)[i2]);
                assert(l[j] == live(old_self@)[j2]);
            }
        }
        match e {
            Some(e) => (e.key, e.value),
            None => {
                proof { assert(false); }
                (Value::Null, Value::Null)
            },
        }
    }

    /// Slot of `key`, after checking that it can be hashed.
    fn locate(&self, key: &Value) -> (r: Result<Option<usize>, DictError>)
        requires
            self.wf(),
        ensures
            match hash_of(key@) {
                None => r == Err::<Option<usize>, DictError>(DictError::Unhashable),
                Some(_) => r is Ok,
            },
            r matches Ok(Some(p)) ==> p < self@.len() && self@[p as int] is Some
                && self@[p as int].unwrap().0 == key@
                && key_index(self.entries(), key@) == rank(self@, p as int)
                && lookup(self.entries(), key@) == Some(self@[p as int].unwrap().1),
            r matches Ok(None) ==> key_index(self.entries(), key@) == -1,
    {
        let h = match key.hash() {
            Ok(h) => h,
            Err(e) => return Err(e),
        };
        let f = self.find(key, h);
        proof {
            self.lemma_wf();
            match f {
                Some(p) => {
                    lemma_live_at(self@, p as int);
                    lemma_key_index_found(self.entries(), rank(self@, p as int));
                },
                None => {
                    assert forall|i: int| 0 <= i < live(self@).len() implies live(self@)[i].0 != key@ by {
                        lemma_live_source(self@, i);
                    }
                    lemma_key_index_absent(self.entries(), key@);
                },
            }
        }
        Ok(f)
    }

    /// The value stored under `key`.
    pub fn get(&self, key: &Value) -> (r: Result<Option<Value>, DictError>)
        requires
            self.wf(),
        ensures
            match hash_of(key@) {
                None => r == Err::<Option<Value>, DictError>(DictError::Unhashable),
                Some(_) => r is Ok && opt_view(r->Ok_0) == lookup(self.entries(), key@),
            },
    {
        match self.locate(key) {
            Err(e) => Err(e),
            Ok(None) => Ok(None),
            Ok(Some(p)) => match &self.slots[p] {
                Some(e) => {
                    proof { self.lemma_view_len(); }
                    Ok(Some(e.value.copied()))
                },
                None => {
                    proof { self.lemma_view_len(); }
                    Ok(None)
                },
            },
        }
    }

    /// Whether an entry with `key` is present.
    pub fn contains(&self, key: &Value) -> (r: Result<bool, DictError>)
        requires
            self.wf(),
        ensures
            match hash_of(key@) {
                None => r == Err::<bool, DictError>(DictError::Unhashable),
                Some(_) => r == Ok::<bool, DictError>(lookup(self.entries(), key@) is Some),
            },
    {
        match self.locate(key) {
            Err(e) => Err(e),
            Ok(f) => Ok(f.is_some()),
        }
    }

    /// Removes the entry with `key` and returns its value.
    pub fn pop(&mut self, key: &Value) -> (r: Result<Value, DictError>)
        requires
            old(self).wf(),
        ensures
            final(self).wf(),
            match hash_of(key@) {
                None => r == Err::<Value, DictError>(DictError::Unhashable) && final(self)@ == old(self)@,
                Some(_) => match lookup(old(self).entries(), key@) {
                    None => (r matches Err(DictError::KeyError(k)) && k@ == key@) && final(self)@ == old(self)@,
                    Some(v) => r is Ok && r->Ok_0@ == v
                        && final(self).entries() == remove_spec(old(self).entries(), key@),
                },
            },
    {
        match self.locate(key) {
            Err(e) => Err(e),
            Ok(None) => Err(DictError::KeyError(key.copied())),
            Ok(Some(p)) => {
                let (_k, v) = self.take_slot(p);
                Ok(v)
            },
        }
    }

    /// Removes the entry with `key`.
    pub fn delete(&mut self, key: &Value) -> (r: Result<(), DictError>)
        requires
            old(self).wf(),
        ensures
            final(self).wf(),
            match hash_of(key@) {
                None => r == Err::<(), DictError>(DictError::Unhashable) && final(self)@ == old(self)@,
                Some(_) => match lookup(old(self).entries(), key@) {
                    None => (r matches Err(DictError::KeyError(k)) && k@ == key@) && final(self)@ == old(self)@,
                    Some(v) => r is Ok && final(self).entries() == remove_spec(old(self).entries(), key@),
                },
            },
    {
        match self.pop(key) {
            Ok(_) => Ok(()),
            Err(e) => Err(e),
        }
    }

    /// Removes and returns the oldest live entry.
    pub fn pop_front(&mut self) -> (r: Option<(Value, Value)>)
        requires
            old(self).wf(),
        ensures
            final(self).wf(),
            old(self).entries().len() == 0 ==> r is None && final(self)@ == old(self)@,
            old(self).entries().len() > 0 ==> r is Some
                && (r.unwrap().0@, r.unwrap().1@) == old(self).entries()[0]
                && final(self).entries() == old(self).entries().drop_first(),
    {
        proof { self.lemma_view_len(); }
        let n = self.slots.len();
        let mut p: usize = 0;
        while p < n
            invariant
                self.wf(),
                *self == *old(self),
                n == self@.len(),
                p <= n,
                forall|q: int| 0 <= q < p ==> self@[q] is None,
            decreases n - p,
        {
            if self.slots[p].is_some() {
                proof {
                    self.lemma_view_len();
                    assert forall|q: int| 0 <= q < p implies self@.take(p as int)[q] is None by {}
                    lemma_live_all_none(self@.take(p as int));
                    lemma_live_at(self@, p as int);
                }
                let r = self.take_slot(p);
                proof {
                    assert(old(self).entries().len() > 0);
                    assert(old(self).entries().remove(0) =~= old(self).entries().drop_first());
                }
                return Some(r);
            }
            proof { self.lemma_view_len(); }
            p = p + 1;
        }
        proof {
            lemma_live_all_none(self@);
        }
        None
    }

    /// The next live entry at or after `*position`; the cursor moves past it.
    pub fn next_entry(&self, position: &mut usize) -> (r: Option<(Value, Value)>)
        requires
            self.wf(),
        ensures
            match r {
                Some(kv) => *old(position) < *final(position) <= self@.len()
                    && self@[*final(position) - 1] == Some((kv.0@, kv.1@))
                    && (forall|q: int| *old(position) <= q < *final(position) - 1 ==> self@[q] is None)
                    && live(self@.skip(*old(position) as int)) == seq![(kv.0@, kv.1@)] + live(self@.skip(*final(position) as int)),
                None => (forall|q: int| *old(position) <= q < self@.len() ==> self@[q] is None)
                    && (*old(position) < self@.len() ==> *final(position) == self@.len())
                    && (*old(position) >= self@.len() ==> *final(position) == *old(position))
                    && (*old(position) <= self@.len() ==> live(self@.skip(*old(position) as int)) == Seq::<Pair>::empty()),
            },
    {
        proof { self.lemma_view_len(); }
        let start = *position;
        let n = self.slots.len();
        while *position < n
            invariant
                self.wf(),
                n == self@.len(),
                start == *old(position),
                start <= *position,
                start < n ==> *position <= n,
                start >= n ==> *position == start,
                forall|q: int| start <= q < *position ==> self@[q] is None,
            decreases n - *position,
        {
            let p = *position;
            match &self.slots[p] {
                Some(e) => {
                    *position = p + 1;
                    proof {
                        self.lemma_view_len();
                        lemma_live_from(self@, start as int, p as int);
                    }
                    return Some((e.key.copied(), e.value.copied()));
                },
                None => {
                    proof { self.lemma_view_len(); }
                },
            }
            *position = p + 1;
        }
        proof {
            if start <= n {
                assert forall|q: int| 0 <= q < self@.skip(start as int).len() implies self@.skip(start as int)[q] is None by {}
                lemma_live_all_none(self@.skip(start as int));
            }
        }
        None
    }

    /// Number of live entries.
    pub fn len(&self) -> (r: usize)
        requires
            self.wf(),
        ensures
            r == self.entries().len(),
    {
        self.used
    }

    pub fn is_empty(&self) -> (r: bool)
        requires
            self.wf(),
        ensures
            r == (self.entries().len() == 0),
    {
        self.used == 0
    }

    /// The counters that iterators snapshot.
    pub fn size(&self) -> (r: DictSize)
        requires
            self.wf(),
        ensures
            r.used == self.entries().len(),
            r.filled == self@.len(),
    {
        proof { self.lemma_view_len(); }
        DictSize { used: self.used, filled: self.slots.len() }
    }

    /// Whether the counters differ from an earlier snapshot.
    pub fn has_changed_size(&self, old_size: &DictSize) -> (r: bool)
        requires
            self.wf(),
        ensures
            r == !(old_size.used == self.entries().len() && old_size.filled == self@.len()),
    {
        proof { self.lemma_view_len(); }
        !(old_size.used == self.used && old_size.filled == self.slots.len())
    }

    /// Drops every entry.
    pub fn clear(&mut self)
        ensures
            final(self).wf(),
            final(self)@ == Seq::<Option<Pair>>::empty(),
    {
        *self = Dict::new();
    }

    /// A table with the same slots, holding copies of the keys and values.
    pub fn copy(&self) -> (r: Dict)
        requires
            self.wf(),
        ensures
            r.wf(),
            r@ == self@,
    {
        let mut slots: Vec<Option<DictEntry>> = Vec::new();
        let n = self.slots.len();
        let mut i: usize = 0;
        while i < n
            invariant
                n == self.slots@.len(),
                i <= n,
                slots@.len() == i,
                forall|q: int| 0 <= q < i ==> (#[trigger] slots@[q] is Some) == (self.slots@[q] is Some),
                forall|q: int| 0 <= q < i && slots@[q] is Some ==> (#[trigger] slots@[q]->0).hash == self.slots@[q]->0.hash
                    && slots@[q]->0.key@ == self.slots@[q]->0.key@ && slots@[q]->0.value@ == self.slots@[q]->0.value@,
            decreases n - i,
        {
            match &self.slots[i] {
                Some(e) => slots.push(Some(DictEntry { hash: e.hash, key: e.key.copied(), value: e.value.copied() })),
                None => slots.push(None),
            }
            i = i + 1;
        }
        let mut index: Vec<Option<usize>> = Vec::new();
        let cap = self.index.len();
        let mut j: usize = 0;
        while j < cap
            invariant
                cap == self.index@.len(),
                j <= cap,
                index@ == self.index@.take(j as int),
            decreases cap - j,
        {
            index.push(self.index[j]);
            j = j + 1;
            proof { assert(index@ =~= self.index@.take(j as int)); }
        }
        proof { assert(index@ =~= self.index@); }
        let r = Dict { slots, index, used: self.used, bucket_of: Ghost(self.bucket_of@), dist: Ghost(self.dist@) };
        proof {
            assert(r@ =~= self@);
            assert forall|q: int| 0 <= q < r.slots@.len() && (#[trigger] r.slots@[q]) is Some implies r.entry_ok(q) by {
                assert(self.slots@[q] is Some);
                assert(self.entry_ok(q));
            }
        }
        r
    }
}

pub proof fn lemma_live_len(s: Seq<Option<Pair>>)
    ensures
        live(s).len() <= s.len(),
    decreases s.len(),
{
    if s.len() > 0 {
        lemma_live_len(s.drop_last());
    }
}

} // verus!
