//! The mapping type: construction and merging, lookups with defaults,
//! equality, printing, and the key/value/item views with their iterators.
use vstd::prelude::*;
use vstd::string::*;
use crate::dictdatatype::{
    distinct_keys, insert_all, insert_spec, key_index, lemma_key_index_range, live, lookup,
    remove_spec, Dict, DictSize, Pair, MAX_LIVE,
};
use crate::value::{hash_of, is_hashable, join_parts, repr_of, separator, DictError, Val, Value};

verus! {

/// Shape of a merge element as the model sees it: its values in order.
pub open spec fn elem_view(e: Vec<Value>) -> Seq<Val> {
    e@.map_values(|x: Value| x@)
}

/// A merge element is accepted when it is a pair with a hashable key.
pub open spec fn elem_ok(e: Seq<Val>) -> bool {
    e.len() == 2 && is_hashable(e[0])
}

/// The error that a rejected merge element raises.
pub open spec fn elem_error(e: Seq<Val>) -> DictError {
    if e.len() != 2 { DictError::ShapeMismatch } else { DictError::Unhashable }
}

pub open spec fn elems_view(es: Seq<Vec<Value>>) -> Seq<Seq<Val>> {
    es.map_values(|e: Vec<Value>| elem_view(e))
}

pub open spec fn elem_pairs(es: Seq<Seq<Val>>) -> Seq<Pair> {
    es.map_values(|e: Seq<Val>| (e[0], e[1]))
}

/// Index of the first rejected element, or the length when there is none.
pub open spec fn first_rejected(ev: Seq<Seq<Val>>) -> int
    decreases ev.len(),
{
    if ev.len() == 0 {
        0
    } else if !elem_ok(ev[0]) {
        0
    } else {
        1 + first_rejected(ev.drop_first())
    }
}

pub proof fn lemma_first_rejected(ev: Seq<Seq<Val>>, f: int)
    requires
        0 <= f <= ev.len(),
        forall|j: int| 0 <= j < f ==> elem_ok(#[trigger] ev[j]),
        f < ev.len() ==> !elem_ok(ev[f]),
    ensures
        first_rejected(ev) == f,
    decreases ev.len(),
{
    if ev.len() > 0 && f > 0 {
        assert(elem_ok(ev[0]));
        assert forall|j: int| 0 <= j < f - 1 implies elem_ok(#[trigger] ev.drop_first()[j]) by {
            assert(ev.drop_first()[j] == ev[j + 1]);
        }
        lemma_first_rejected(ev.drop_first(), f - 1);
    }
}

/// Keyword arguments as entries keyed by their names.
pub open spec fn kw_pairs(kw: Seq<(String, Value)>) -> Seq<Pair> {
    kw.map_values(|p: (String, Value)| (Val::Str(p.0@), p.1@))
}

/// Two entry sequences are equal as mappings: same size, and each key of
/// the first is bound to the same value in the second.
pub open spec fn dict_eq(a: Seq<Pair>, b: Seq<Pair>) -> bool {
    a.len() == b.len() && forall|i: int| 0 <= i < a.len() ==> lookup(b, #[trigger] a[i].0) == Some(a[i].1)
}

pub open spec fn entry_repr(p: Pair) -> Seq<char> {
    repr_of(p.0) + seq![':', ' '] + repr_of(p.1)
}

/// The printed form of a mapping: `{k1: v1, k2: v2}` in entry order.
pub open spec fn dict_repr(e: Seq<Pair>) -> Seq<char> {
    seq!['{'] + join_parts(e.map_values(|p: Pair| entry_repr(p))) + seq!['}']
}

/// Where a merge takes its entries from.
pub enum MergeSource {
    /// Another mapping, whose entries are taken in its order.
    Mapping(PyDict),
    /// A sequence of elements, each of which must be a key and a value.
    Pairs(Vec<Vec<Value>>),
}

/// The hook that a mapping subtype provides for subscript lookups of absent keys.
pub trait MissingKeyHandler {
    fn missing(&self, key: &Value) -> Result<Value, DictError>;
}

/// The mapping type.
pub struct PyDict {
    entries: Dict,
}

pub type PyDictRef = PyDict;

pub proof fn lemma_insert_len(e: Seq<Pair>, k: Val, v: Val)
    ensures
        insert_spec(e, k, v).len() == if key_index(e, k) >= 0 { e.len() } else { e.len() + 1 },
{
    lemma_key_index_range(e, k);
}

pub proof fn lemma_insert_all_len(e: Seq<Pair>, ps: Seq<Pair>)
    ensures
        insert_all(e, ps).len() <= e.len() + ps.len(),
    decreases ps.len(),
{
    if ps.len() > 0 {
        lemma_insert_all_len(e, ps.drop_last());
        lemma_insert_len(insert_all(e, ps.drop_last()), ps.last().0, ps.last().1);
    }
}

pub proof fn lemma_insert_all_push(e: Seq<Pair>, ps: Seq<Pair>, p: Pair)
    ensures
        insert_all(e, ps.push(p)) == insert_spec(insert_all(e, ps), p.0, p.1),
{
    assert(ps.push(p).drop_last() =~= ps);
}

pub proof fn lemma_insert_all_distinct(e: Seq<Pair>, ps: Seq<Pair>)
    requires
        distinct_keys(e),
    ensures
        distinct_keys(insert_all(e, ps)),
    decreases ps.len(),
{
    if ps.len() > 0 {
        lemma_insert_all_distinct(e, ps.drop_last());
        crate::dictdatatype::lemma_insert_distinct(insert_all(e, ps.drop_last()), ps.last().0, ps.last().1);
    }
}

impl PyDictRef {
    /// The mapping's invariant.
    pub closed spec fn wf(&self) -> bool {
        self.entries.wf()
    }

    /// Slots in order, tombstones included; iterator positions index this.
    pub closed spec fn slots(&self) -> Seq<Option<Pair>> {
        self.entries@
    }

    /// The live entries in insertion order.
    pub open spec fn pairs(&self) -> Seq<Pair> {
        live(self.slots())
    }

    pub proof fn lemma_wf(&self)
        requires
            self.wf(),
        ensures
            distinct_keys(self.pairs()),
            self.pairs().len() <= self.slots().len(),
            forall|i: int| 0 <= i < self.pairs().len() ==> hash_of(#[trigger] self.pairs()[i].0) is Some,
    {
        self.entries.lemma_wf();
    }

    /// Merges `source`, then the keyword pairs, into `dict`. On a failure the
    /// pairs already stored stay.
    pub fn merge(dict: &mut Dict, source: Option<MergeSource>, kwargs: Vec<(String, Value)>) -> (r: Result<(), DictError>)
        requires
            old(dict).wf(),
            old(dict).entries().len() + kwargs@.len() + source_len(source) < MAX_LIVE,
            source_ok(source),
        ensures
            final(dict).wf(),
            match source {
                Some(MergeSource::Pairs(es)) => {
                    let ev = elems_view(es@);
                    let f = first_rejected(ev);
                    &&& (r is Ok <==> f == ev.len())
                    &&& r is Ok ==> final(dict).entries()
                        == insert_all(insert_all(old(dict).entries(), elem_pairs(ev)), kw_pairs(kwargs@))
                    &&& r is Err ==> r == Err::<(), DictError>(elem_error(ev[f]))
                        && final(dict).entries() == insert_all(old(dict).entries(), elem_pairs(ev.take(f)))
                },
                Some(MergeSource::Mapping(m)) => r is Ok
                    && final(dict).entries() == insert_all(insert_all(old(dict).entries(), m.pairs()), kw_pairs(kwargs@)),
                None => r is Ok && final(dict).entries() == insert_all(old(dict).entries(), kw_pairs(kwargs@)),
            },
    {
        let ghost start = dict.entries();
        let ghost mid: Seq<Pair>;
        match source {
            Some(MergeSource::Mapping(m)) => {
                proof { m.lemma_wf(); }
                let mut pos: usize = 0;
                let ghost mut done: Seq<Pair> = Seq::empty();
                proof {
                    assert(m.entries@.skip(0) =~= m.entries@);
                }
                loop
                    invariant_except_break
                        pos <= m.entries@.len(),
                        m.pairs() == done + live(m.entries@.skip(pos as int)),
                    invariant
                        m.wf(),
                        dict.wf(),
                        dict.entries() == insert_all(start, done),
                        start.len() + kwargs@.len() + m.pairs().len() < MAX_LIVE,
                    ensures
                        done == m.pairs(),
                    decreases m.entries@.len() - pos,
                {
                    let ghost old_pos = pos;
                    match m.entries.next_entry(&mut pos) {
                        Some((k, v)) => {
                            let ghost kv = (k@, v@);
                            proof {
                                lemma_insert_all_len(start, done);
                                assert(m.pairs() == done.push(kv) + live(m.entries@.skip(pos as int)));
                                assert(done.len() < m.pairs().len());
                                lemma_insert_all_push(start, done, kv);
                                m.lemma_wf();
                                assert(m.pairs()[done.len() as int] == kv);
                            }
                            let _ = dict.insert(k, v);
                            proof { done = done.push(kv); }
                        },
                        None => {
                            proof {
                                assert(live(m.entries@.skip(old_pos as int)) =~= Seq::<Pair>::empty());
                                assert(done =~= m.pairs());
                            }
                            break;
                        },
                    }
                }
                proof {
                    mid = done;
                    assert(mid == m.pairs());
                    lemma_insert_all_len(start, mid);
                }
            },
            Some(MergeSource::Pairs(es)) => {
                let ghost ev = elems_view(es@);
                let mut i: usize = 0;
                while i < es.len()
                    invariant
                        dict.wf(),
                        ev == elems_view(es@),
                        source == Some(MergeSource::Pairs(es)),
                        start == old(dict).entries(),
                        i <= es@.len(),
                        forall|j: int| 0 <= j < i ==> elem_ok(#[trigger] ev[j]),
                        dict.entries() == insert_all(start, elem_pairs(ev.take(i as int))),
                        start.len() + kwargs@.len() + es@.len() < MAX_LIVE,
                    decreases es@.len() - i,
                {
                    let e = &es[i];
                    proof {
                        assert(ev[i as int] == elem_view(*e));
                        lemma_insert_all_len(start, elem_pairs(ev.take(i as int)));
                    }
                    if e.len() != 2 {
                        proof {
                            assert(ev[i as int].len() == e@.len());
                            lemma_first_rejected(ev, i as int);
                        }
                        return Err(DictError::ShapeMismatch);
                    }
                    let ghost kv = (e@[0]@, e@[1]@);
                    proof {
                        assert(ev[i as int][0] == e@[0]@);
                        assert(ev[i as int][1] == e@[1]@);
                    }
                    match dict.insert(e[0].copied(), e[1].copied()) {
                        Ok(()) => {},
                        Err(err) => {
                            proof { lemma_first_rejected(ev, i as int); }
                            return Err(err);
                        },
                    }
                    proof {
                        assert(elem_pairs(ev.take(i + 1)) =~= elem_pairs(ev.take(i as int)).push(kv));
                        lemma_insert_all_push(start, elem_pairs(ev.take(i as int)), kv);
                    }
                    i = i + 1;
                }
                proof {
                    assert(ev.take(i as int) =~= ev);
                    lemma_first_rejected(ev, ev.len() as int);
                    mid = elem_pairs(ev);
                    lemma_insert_all_len(start, mid);
                }
            },
            None => {
                proof { mid = Seq::empty(); }
            },
        }
        let ghost kw = kw_pairs(kwargs@);
        let ghost base = dict.entries();
        proof { assert(base == insert_all(start, mid)); }
        let mut j: usize = 0;
        proof { assert(kw.take(0) =~= Seq::<Pair>::empty()); }
        while j < kwargs.len()
            invariant
                dict.wf(),
                kw == kw_pairs(kwargs@),
                j <= kwargs@.len(),
                dict.entries() == insert_all(base, kw.take(j as int)),
                base.len() + kwargs@.len() < MAX_LIVE,
            decreases kwargs@.len() - j,
        {
            proof { lemma_insert_all_len(base, kw.take(j as int)); }
            let name = kwargs[j].0.clone();
            let v = kwargs[j].1.copied();
            let ghost kv = (Val::Str(name@), v@);
            let _ = dict.insert(Value::Str(name), v);
            proof {
                assert(kw.take(j + 1) =~= kw.take(j as int).push(kv));
                lemma_insert_all_push(base, kw.take(j as int), kv);
            }
            j = j + 1;
        }
        proof { assert(kw.take(j as int) =~= kw); }
        Ok(())
    }
}

/// Entries after merging `source` and then the keyword pairs into `e`,
/// when every element is accepted.
pub open spec fn merged(e: Seq<Pair>, source: Option<MergeSource>, kw: Seq<(String, Value)>) -> Seq<Pair> {
    match source {
        Some(MergeSource::Pairs(es)) => insert_all(insert_all(e, elem_pairs(elems_view(es@))), kw_pairs(kw)),
        Some(MergeSource::Mapping(m)) => insert_all(insert_all(e, m.pairs()), kw_pairs(kw)),
        None => insert_all(e, kw_pairs(kw)),
    }
}

/// Whether a merge of `source` succeeds: every element is a pair with a hashable key.
pub open spec fn merge_accepts(source: Option<MergeSource>) -> bool {
    match source {
        Some(MergeSource::Pairs(es)) => first_rejected(elems_view(es@)) == es@.len(),
        _ => true,
    }
}

/// The error of a merge that does not succeed.
pub open spec fn merge_error(source: Option<MergeSource>) -> DictError {
    match source {
        Some(MergeSource::Pairs(es)) => elem_error(elems_view(es@)[first_rejected(elems_view(es@))]),
        _ => DictError::ShapeMismatch,
    }
}

pub open spec fn source_len(source: Option<MergeSource>) -> int {
    match source {
        Some(MergeSource::Mapping(m)) => m.pairs().len() as int,
        Some(MergeSource::Pairs(es)) => es@.len() as int,
        None => 0int,
    }
}

pub open spec fn source_ok(source: Option<MergeSource>) -> bool {
    source matches Some(MergeSource::Mapping(m)) ==> m.wf()
}

/// Entries of a mapping built from keys that all share one value.
pub open spec fn keys_with(keys: Seq<Value>, v: Val) -> Seq<Pair> {
    keys.map_values(|k: Value| (k@, v))
}

impl PyDictRef {
    /// A mapping built by merging `source` and then the keyword pairs.
    pub fn new(source: Option<MergeSource>, kwargs: Vec<(String, Value)>) -> (r: Result<PyDict, DictError>)
        requires
            source_ok(source),
            kwargs@.len() + source_len(source) < MAX_LIVE,
        ensures
            r is Ok <==> merge_accepts(source),
            r matches Ok(d) ==> d.wf() && d.pairs() == merged(Seq::empty(), source, kwargs@),
            r matches Err(e) ==> e == merge_error(source),
    {
        let mut entries = Dict::new();
        proof { assert(entries.entries() =~= Seq::<Pair>::empty()); }
        match PyDictRef::merge(&mut entries, source, kwargs) {
            Ok(()) => Ok(PyDict { entries }),
            Err(e) => Err(e),
        }
    }

    /// A mapping that binds each of `iterable` to `value` (`Null` when absent).
    pub fn fromkeys(iterable: Vec<Value>, value: Option<Value>) -> (r: Result<PyDict, DictError>)
        requires
            iterable@.len() < MAX_LIVE,
        ensures
            r is Ok <==> forall|i: int| 0 <= i < iterable@.len() ==> is_hashable(#[trigger] iterable@[i]@),
            r matches Ok(d) ==> d.wf() && d.pairs() == insert_all(Seq::empty(), keys_with(iterable@,
                match value { Some(v) => v@, None => Val::Null })),
            r matches Err(e) ==> e == DictError::Unhashable,
    {
        let fill = match value {
            Some(v) => v,
            None => Value::Null,
        };
        let ghost ps = keys_with(iterable@, fill@);
        let mut dict = Dict::new();
        let mut i: usize = 0;
        proof { assert(ps.take(0) =~= Seq::<Pair>::empty()); }
        while i < iterable.len()
            invariant
                dict.wf(),
                i <= iterable@.len(),
                iterable@.len() < MAX_LIVE,
                ps == keys_with(iterable@, fill@),
                dict.entries() == insert_all(Seq::empty(), ps.take(i as int)),
                forall|j: int| 0 <= j < i ==> is_hashable(#[trigger] iterable@[j]@),
            decreases iterable@.len() - i,
        {
            proof { lemma_insert_all_len(Seq::empty(), ps.take(i as int)); }
            let ghost kv = (iterable@[i as int]@, fill@);
            match dict.insert(iterable[i].copied(), fill.copied()) {
                Ok(()) => {},
                Err(e) => {
                    proof { assert(!is_hashable(iterable@[i as int]@)); }
                    return Err(e);
                },
            }
            proof {
                assert(ps.take(i + 1) =~= ps.take(i as int).push(kv));
                lemma_insert_all_push(Seq::empty(), ps.take(i as int), kv);
            }
            i = i + 1;
        }
        proof { assert(ps.take(i as int) =~= ps); }
        Ok(PyDict { entries: dict })
    }

    /// Whether the mapping has entries.
    pub fn bool(&self) -> (r: bool)
        requires
            self.wf(),
        ensures
            r == (self.pairs().len() > 0),
    {
        !self.entries.is_empty()
    }

    /// Number of entries.
    pub fn len(&self) -> (r: usize)
        requires
            self.wf(),
        ensures
            r == self.pairs().len(),
    {
        self.entries.len()
    }

    /// Structural equality: same size, and every key bound to an equal value
    /// in `other`. The order of entries does not matter.
    pub fn inner_eq(&self, other: &PyDict) -> (r: bool)
        requires
            self.wf(),
            other.wf(),
        ensures
            r == dict_eq(self.pairs(), other.pairs()),
    {
        if other.entries.len() != self.entries.len() {
            return false;
        }
        proof { self.lemma_wf(); }
        let mut pos: usize = 0;
        let ghost mut done: Seq<Pair> = Seq::empty();
        proof { assert(self.entries@.skip(0) =~= self.entries@); }
        loop
            invariant_except_break
                pos <= self.entries@.len(),
                self.pairs() == done + live(self.entries@.skip(pos as int)),
            invariant
                self.wf(),
                other.wf(),
                self.pairs().len() == other.pairs().len(),
                distinct_keys(self.pairs()),
                forall|i: int| 0 <= i < self.pairs().len() ==> hash_of(#[trigger] self.pairs()[i].0) is Some,
                forall|i: int| 0 <= i < done.len() ==> lookup(other.pairs(), #[trigger] done[i].0) == Some(done[i].1),
            ensures
                done == self.pairs(),
            decreases self.entries@.len() - pos,
        {
            let ghost old_pos = pos;
            match self.entries.next_entry(&mut pos) {
                Some((k, v1)) => {
                    let ghost kv = (k@, v1@);
                    proof {
                        assert(self.pairs() == done.push(kv) + live(self.entries@.skip(pos as int)));
                        assert(self.pairs()[done.len() as int] == kv);
                    }
                    match other.entries.get(&k) {
                        Ok(Some(v2)) => {
                            if !v1.equals(&v2) {
                                proof {
                                    let d = done.len() as int;
                                    assert(lookup(other.pairs(), self.pairs()[d].0) != Some(self.pairs()[d].1));
                                }
                                return false;
                            }
                        },
                        _ => {
                            proof {
                                let d = done.len() as int;
                                assert(hash_of(self.pairs()[d].0) is Some);
                                assert(lookup(other.pairs(), self.pairs()[d].0) != Some(self.pairs()[d].1));
                            }
                            return false;
                        },
                    }
                    proof {
                        assert forall|i: int| 0 <= i < done.push(kv).len() implies
                            lookup(other.pairs(), #[trigger] done.push(kv)[i].0) == Some(done.push(kv)[i].1) by {
                            if i < done.len() {
                                assert(done.push(kv)[i] == done[i]);
                            }
                        }
                        done = done.push(kv);
                    }
                },
                None => {
                    proof {
                        assert(live(self.entries@.skip(old_pos as int)) =~= Seq::<Pair>::empty());
                        assert(done =~= self.pairs());
                    }
                    break;
                },
            }
        }
        true
    }

    /// `inner_eq` under the name the comparison protocol uses.
    pub fn eq(&self, other: &PyDict) -> (r: bool)
        requires
            self.wf(),
            other.wf(),
        ensures
            r == dict_eq(self.pairs(), other.pairs()),
    {
        self.inner_eq(other)
    }

    /// The printed form `{k1: v1, k2: v2}`. Values cannot hold a mapping,
    /// so the printing never meets the mapping it is printing.
    pub fn repr(&self) -> (r: String)
        requires
            self.wf(),
        ensures
            r@ == dict_repr(self.pairs()),
    {
        let mut out = String::new();
        proof {
            reveal_strlit("{");
            reveal_strlit("}");
            reveal_strlit(", ");
            reveal_strlit(": ");
        }
        out.append("{");
        let ghost start = out@;
        let mut pos: usize = 0;
        let mut any = false;
        let ghost mut done: Seq<Pair> = Seq::empty();
        proof {
            assert(self.entries@.skip(0) =~= self.entries@);
            assert(done.map_values(|p: Pair| entry_repr(p)) =~= Seq::<Seq<char>>::empty());
            assert(out@ =~= start + join_parts(done.map_values(|p: Pair| entry_repr(p))));
        }
        loop
            invariant_except_break
                pos <= self.entries@.len(),
                self.pairs() == done + live(self.entries@.skip(pos as int)),
            invariant
                self.wf(),
                start == seq!['{'],
                any == (done.len() > 0),
                out@ == start + join_parts(done.map_values(|p: Pair| entry_repr(p))),
            ensures
                done == self.pairs(),
            decreases self.entries@.len() - pos,
        {
            let ghost old_pos = pos;
            match self.entries.next_entry(&mut pos) {
                Some((k, v)) => {
                    let ghost kv = (k@, v@);
                    let ghost before = out@;
                    if any {
                        proof { reveal_strlit(", "); }
                        out.append(", ");
                    }
                    k.push_repr(&mut out);
                    proof { reveal_strlit(": "); }
                    out.append(": ");
                    v.push_repr(&mut out);
                    proof {
                        let m0 = done.map_values(|p: Pair| entry_repr(p));
                        let m1 = done.push(kv).map_values(|p: Pair| entry_repr(p));
                        assert(m1.drop_last() =~= m0);
                        assert(m1.last() == entry_repr(kv));
                        reveal_strlit(", ");
                        assert(", "@ =~= separator());
                        if done.len() == 0 {
                            assert(m1.len() == 1);
                            assert(out@ =~= start + join_parts(m1));
                        } else {
                            assert(out@ =~= start + join_parts(m1));
                        }
                        done = done.push(kv);
                    }
                    any = true;
                },
                None => {
                    proof {
                        assert(live(self.entries@.skip(old_pos as int)) =~= Seq::<Pair>::empty());
                        assert(done =~= self.pairs());
                    }
                    break;
                },
            }
        }
        proof { reveal_strlit("}"); }
        out.append("}");
        proof { assert(out@ =~= dict_repr(self.pairs())); }
        out
    }
}

impl PyDictRef {
    /// Whether `key` is present.
    pub fn contains(&self, key: &Value) -> (r: Result<bool, DictError>)
        requires
            self.wf(),
        ensures
            match hash_of(key@) {
                None => r == Err::<bool, DictError>(DictError::Unhashable),
                Some(_) => r == Ok::<bool, DictError>(lookup(self.pairs(), key@) is Some),
            },
    {
        self.entries.contains(key)
    }

    /// Removes the entry of `key`.
    pub fn inner_delitem(&mut self, key: &Value) -> (r: Result<(), DictError>)
        requires
            old(self).wf(),
        ensures
            final(self).wf(),
            match hash_of(key@) {
                None => r == Err::<(), DictError>(DictError::Unhashable) && final(self).pairs() == old(self).pairs(),
                Some(_) => match lookup(old(self).pairs(), key@) {
                    None => (r matches Err(DictError::KeyError(k)) && k@ == key@) && final(self).pairs() == old(self).pairs(),
                    Some(_) => r is Ok && final(self).pairs() == remove_spec(old(self).pairs(), key@),
                },
            },
    {
        self.entries.delete(key)
    }

    /// Drops every entry.
    pub fn clear(&mut self)
        ensures
            final(self).wf(),
            final(self).pairs() == Seq::<Pair>::empty(),
            final(self).slots() == Seq::<Option<Pair>>::empty(),
    {
        self.entries.clear();
    }

    /// Stores `value` under `key`.
    pub fn inner_setitem(&mut self, key: Value, value: Value) -> (r: Result<(), DictError>)
        requires
            old(self).wf(),
            old(self).pairs().len() < MAX_LIVE,
        ensures
            final(self).wf(),
            match hash_of(key@) {
                None => r == Err::<(), DictError>(DictError::Unhashable) && final(self).slots() == old(self).slots(),
                Some(_) => r is Ok && final(self).pairs() == insert_spec(old(self).pairs(), key@, value@),
            },
    {
        self.entries.insert(key, value)
    }

    /// Subscript lookup. On a miss the subtype's hook answers when there is
    /// one; without a hook the miss is a `KeyError`.
    pub fn inner_getitem<H: MissingKeyHandler>(&self, key: &Value, hook: Option<&H>) -> (r: Result<Value, DictError>)
        requires
            self.wf(),
        ensures
            hash_of(key@) is None ==> r == Err::<Value, DictError>(DictError::Unhashable),
            hash_of(key@) is Some && lookup(self.pairs(), key@) is Some ==>
                r is Ok && Some(r->Ok_0@) == lookup(self.pairs(), key@),
            hash_of(key@) is Some && lookup(self.pairs(), key@) is None && hook is None ==>
                (r matches Err(DictError::KeyError(k)) && k@ == key@),
    {
        match self.entries.get(key) {
            Err(e) => Err(e),
            Ok(Some(v)) => Ok(v),
            Ok(None) => match hook {
                Some(h) => h.missing(key),
                None => Err(DictError::KeyError(key.copied())),
            },
        }
    }

    /// The value of `key`, or `default` (`Null` when absent) on a miss; the
    /// missing-key hook is never consulted.
    pub fn get(&self, key: &Value, default: Option<Value>) -> (r: Result<Value, DictError>)
        requires
            self.wf(),
        ensures
            match hash_of(key@) {
                None => r == Err::<Value, DictError>(DictError::Unhashable),
                Some(_) => r is Ok && r->Ok_0@ == match lookup(self.pairs(), key@) {
                    Some(v) => v,
                    None => match default { Some(d) => d@, None => Val::Null },
                },
            },
    {
        match self.entries.get(key) {
            Err(e) => Err(e),
            Ok(Some(v)) => Ok(v),
            Ok(None) => match default {
                Some(d) => Ok(d),
                None => Ok(Value::Null),
            },
        }
    }

    /// The value of `key`; when absent, `default` (`Null` when not given) is
    /// stored under it and returned.
    pub fn setdefault(&mut self, key: Value, default: Option<Value>) -> (r: Result<Value, DictError>)
        requires
            old(self).wf(),
            old(self).pairs().len() < MAX_LIVE,
        ensures
            final(self).wf(),
            match hash_of(key@) {
                None => r == Err::<Value, DictError>(DictError::Unhashable) && final(self).slots() == old(self).slots(),
                Some(_) => match lookup(old(self).pairs(), key@) {
                    Some(v) => r is Ok && r->Ok_0@ == v && final(self).slots() == old(self).slots(),
                    None => {
                        let d = match default { Some(d) => d@, None => Val::Null };
                        r is Ok && r->Ok_0@ == d && final(self).pairs() == insert_spec(old(self).pairs(), key@, d)
                    },
                },
            },
    {
        match self.entries.get(&key) {
            Err(e) => Err(e),
            Ok(Some(v)) => Ok(v),
            Ok(None) => {
                let set_value = match default {
                    Some(d) => d,
                    None => Value::Null,
                };
                let stored = set_value.copied();
                let _ = self.entries.insert(key, stored);
                Ok(set_value)
            },
        }
    }

    /// A shallow copy: a new table with the same entries in the same slots.
    pub fn copy(&self) -> (r: PyDict)
        requires
            self.wf(),
        ensures
            r.wf(),
            r.slots() == self.slots(),
            r.pairs() == self.pairs(),
    {
        PyDict { entries: self.entries.copy() }
    }

    /// Merges `source`, then the keyword pairs, into the mapping. On a
    /// failure the pairs stored before the rejected element stay.
    pub fn update(&mut self, source: Option<MergeSource>, kwargs: Vec<(String, Value)>) -> (r: Result<(), DictError>)
        requires
            old(self).wf(),
            source_ok(source),
            old(self).pairs().len() + kwargs@.len() + source_len(source) < MAX_LIVE,
        ensures
            final(self).wf(),
            r is Ok <==> merge_accepts(source),
            r is Ok ==> final(self).pairs() == merged(old(self).pairs(), source, kwargs@),
            r matches Err(e) ==> e == merge_error(source),
            r is Err ==> (source matches Some(MergeSource::Pairs(es))
                && final(self).pairs() == insert_all(old(self).pairs(),
                    elem_pairs(elems_view(es@).take(first_rejected(elems_view(es@)))))),
    {
        PyDictRef::merge(&mut self.entries, source, kwargs)
    }

    /// Removes the entry of `key` and returns its value.
    pub fn pop(&mut self, key: &Value) -> (r: Result<Value, DictError>)
        requires
            old(self).wf(),
        ensures
            final(self).wf(),
            match hash_of(key@) {
                None => r == Err::<Value, DictError>(DictError::Unhashable) && final(self).slots() == old(self).slots(),
                Some(_) => match lookup(old(self).pairs(), key@) {
                    None => (r matches Err(DictError::KeyError(k)) && k@ == key@) && final(self).slots() == old(self).slots(),
                    Some(v) => r is Ok && r->Ok_0@ == v && final(self).pairs() == remove_spec(old(self).pairs(), key@),
                },
            },
    {
        self.entries.pop(key)
    }

    /// Removes and returns the oldest entry.
    pub fn popitem(&mut self) -> (r: Result<(Value, Value), DictError>)
        requires
            old(self).wf(),
        ensures
            final(self).wf(),
            old(self).pairs().len() == 0 ==> r == Err::<(Value, Value), DictError>(DictError::EmptyDict)
                && final(self).slots() == old(self).slots(),
            old(self).pairs().len() > 0 ==> r is Ok
                && (r->Ok_0.0@, r->Ok_0.1@) == old(self).pairs()[0]
                && final(self).pairs() == old(self).pairs().drop_first(),
    {
        match self.entries.pop_front() {
            Some(kv) => Ok(kv),
            None => Err(DictError::EmptyDict),
        }
    }

    /// The entries as named attributes, in order.
    pub fn to_attributes(&self) -> (r: Vec<(String, Value)>)
        requires
            self.wf(),
            forall|i: int| 0 <= i < self.pairs().len() ==> (#[trigger] self.pairs()[i]).0 is Str,
        ensures
            kw_pairs(r@) == self.pairs(),
    {
        let mut attrs: Vec<(String, Value)> = Vec::new();
        let mut pos: usize = 0;
        proof { assert(self.entries@.skip(0) =~= self.entries@); }
        loop
            invariant_except_break
                pos <= self.entries@.len(),
                self.pairs() == kw_pairs(attrs@) + live(self.entries@.skip(pos as int)),
            invariant
                self.wf(),
                forall|i: int| 0 <= i < self.pairs().len() ==> (#[trigger] self.pairs()[i]).0 is Str,
            ensures
                kw_pairs(attrs@) == self.pairs(),
            decreases self.entries@.len() - pos,
        {
            let ghost old_pos = pos;
            match self.entries.next_entry(&mut pos) {
                Some((key, value)) => {
                    let ghost kv = (key@, value@);
                    proof {
                        assert(self.pairs() == kw_pairs(attrs@).push(kv) + live(self.entries@.skip(pos as int)));
                        assert(self.pairs()[kw_pairs(attrs@).len() as int] == kv);
                    }
                    match key {
                        Value::Str(name) => {
                            let ghost prev = attrs@;
                            attrs.push((name, value));
                            proof { assert(kw_pairs(attrs@) =~= kw_pairs(prev).push(kv)); }
                        },
                        _ => {
                            proof { assert(false); }
                        },
                    }
                },
                None => {
                    proof {
                        assert(live(self.entries@.skip(old_pos as int)) =~= Seq::<Pair>::empty());
                        assert(kw_pairs(attrs@) =~= self.pairs());
                    }
                    break;
                },
            }
        }
        attrs
    }

    /// A mapping holding the named attributes, in order.
    pub fn from_attributes(attrs: Vec<(String, Value)>) -> (r: Result<PyDict, DictError>)
        requires
            attrs@.len() < MAX_LIVE,
        ensures
            r is Ok,
            r matches Ok(d) ==> d.wf() && d.pairs() == insert_all(Seq::empty(), kw_pairs(attrs@)),
    {
        let mut entries = Dict::new();
        proof { assert(entries.entries() =~= Seq::<Pair>::empty()); }
        match PyDictRef::merge(&mut entries, None, attrs) {
            Ok(()) => Ok(PyDict { entries }),
            Err(e) => Err(e),
        }
    }

    /// Mappings are mutable and therefore never hashable.
    pub fn hash(&self) -> (r: Result<(), DictError>)
        ensures
            r == Err::<(), DictError>(DictError::Unhashable),
    {
        Err(DictError::Unhashable)
    }

    /// Whether `key`, which must be hashable, is present.
    pub fn contains_key(&self, key: &Value) -> (r: bool)
        requires
            self.wf(),
            is_hashable(key@),
        ensures
            r == (lookup(self.pairs(), key@) is Some),
    {
        match self.entries.contains(key) {
            Ok(b) => b,
            Err(_) => false,
        }
    }

    /// The counters that iterators compare against.
    pub fn size(&self) -> (r: DictSize)
        requires
            self.wf(),
        ensures
            r.used == self.pairs().len(),
            r.filled == self.slots().len(),
    {
        self.entries.size()
    }
}

/// Walks a mapping's entries in order. It borrows the mapping, which
/// therefore cannot change while it walks.
pub struct DictIter<'a> {
    dict: &'a PyDict,
    position: usize,
}

impl<'a> DictIter<'a> {
    pub closed spec fn wf(&self) -> bool {
        self.dict.wf() && self.position <= self.dict.slots().len()
    }

    /// The entries still to come.
    pub closed spec fn remaining(&self) -> Seq<Pair> {
        live(self.dict.slots().skip(self.position as int))
    }

    pub fn new(dict: &'a PyDict) -> (r: DictIter<'a>)
        requires
            dict.wf(),
        ensures
            r.wf(),
            r.remaining() == dict.pairs(),
    {
        let r = DictIter { dict, position: 0 };
        proof { assert(dict.slots().skip(0) =~= dict.slots()); }
        r
    }

    /// The next entry, or `None` once all have been handed out.
    pub fn next(&mut self) -> (r: Option<(Value, Value)>)
        requires
            old(self).wf(),
        ensures
            final(self).wf(),
            match r {
                Some(kv) => old(self).remaining().len() > 0 && (kv.0@, kv.1@) == old(self).remaining()[0]
                    && final(self).remaining() == old(self).remaining().drop_first(),
                None => old(self).remaining().len() == 0 && final(self).remaining().len() == 0,
            },
    {
        let mut position = self.position;
        let ghost start = position;
        let ghost n = self.dict.entries@.len();
        proof {
            assert(self.dict.slots() == self.dict.entries@);
            assert(start <= n);
        }
        let r = self.dict.entries.next_entry(&mut position);
        proof {
            if r is None {
                assert(position as int == n);
            }
        }
        self.position = position;
        proof {
            if r is None {
                assert(self.dict.slots().skip(self.position as int).len() == 0);
                assert(self.remaining() =~= Seq::<Pair>::empty());
            }
        }
        r
    }
}

/// A cursor over a mapping's slots with the size counters seen when it was
/// made; each step first checks that they have not changed.
pub struct IterCursor {
    size: DictSize,
    position: usize,
}

/// Whether the mapping's counters differ from the snapshot.
pub open spec fn size_changed(d: &PyDict, snapshot: DictSize) -> bool {
    !(snapshot.used == d.pairs().len() && snapshot.filled == d.slots().len())
}

impl IterCursor {
    pub closed spec fn wf(&self) -> bool {
        self.position <= self.size.filled
    }

    pub closed spec fn snapshot(&self) -> DictSize {
        self.size
    }

    /// The entries of `d` still to come, when `d` has not changed size.
    pub closed spec fn remaining(&self, d: &PyDict) -> Seq<Pair> {
        live(d.slots().skip(self.position as int))
    }

    pub fn new(dict: &PyDict) -> (r: IterCursor)
        requires
            dict.wf(),
        ensures
            r.wf(),
            !size_changed(dict, r.snapshot()),
            r.remaining(dict) == dict.pairs(),
    {
        let r = IterCursor { size: dict.size(), position: 0 };
        proof { assert(dict.slots().skip(0) =~= dict.slots()); }
        r
    }

    /// Fails when `dict` changed size since the cursor was made; else hands
    /// out the next entry, or `None` at the end.
    pub fn step(&mut self, dict: &PyDict) -> (r: Result<Option<(Value, Value)>, DictError>)
        requires
            old(self).wf(),
            dict.wf(),
        ensures
            final(self).wf(),
            final(self).snapshot() == old(self).snapshot(),
            size_changed(dict, old(self).snapshot()) ==>
                r == Err::<Option<(Value, Value)>, DictError>(DictError::ChangedSize) && *final(self) == *old(self),
            !size_changed(dict, old(self).snapshot()) ==> r is Ok && match r->Ok_0 {
                Some(kv) => old(self).remaining(dict).len() > 0 && (kv.0@, kv.1@) == old(self).remaining(dict)[0]
                    && final(self).remaining(dict) == old(self).remaining(dict).drop_first(),
                None => old(self).remaining(dict).len() == 0 && final(self).remaining(dict).len() == 0,
            },
    {
        if dict.entries.has_changed_size(&self.size) {
            return Err(DictError::ChangedSize);
        }
        let mut position = self.position;
        let r = dict.entries.next_entry(&mut position);
        self.position = position;
        proof {
            if r is None {
                assert(dict.slots().skip(self.position as int).len() == 0);
                assert(self.remaining(dict) =~= Seq::<Pair>::empty());
            }
        }
        Ok(r)
    }
}

/// Iterator over the keys of a mapping that fails once the mapping changes size.
pub struct PyDictKeyIterator {
    cursor: IterCursor,
}

/// Iterator over the values of a mapping that fails once the mapping changes size.
pub struct PyDictValueIterator {
    cursor: IterCursor,
}

/// Iterator over the entries of a mapping that fails once the mapping changes size.
pub struct PyDictItemIterator {
    cursor: IterCursor,
}

impl PyDictKeyIterator {
    pub closed spec fn cursor(&self) -> IterCursor {
        self.cursor
    }

    pub fn new(dict: &PyDict) -> (r: PyDictKeyIterator)
        requires
            dict.wf(),
        ensures
            r.cursor().wf(),
            !size_changed(dict, r.cursor().snapshot()),
            r.cursor().remaining(dict) == dict.pairs(),
    {
        PyDictKeyIterator { cursor: IterCursor::new(dict) }
    }

    pub fn next(&mut self, dict: &PyDict) -> (r: Result<Option<Value>, DictError>)
        requires
            old(self).cursor().wf(),
            dict.wf(),
        ensures
            final(self).cursor().wf(),
            final(self).cursor().snapshot() == old(self).cursor().snapshot(),
            size_changed(dict, old(self).cursor().snapshot()) ==>
                r == Err::<Option<Value>, DictError>(DictError::ChangedSize) && *final(self) == *old(self),
            !size_changed(dict, old(self).cursor().snapshot()) ==> r is Ok && match r->Ok_0 {
                Some(k) => old(self).cursor().remaining(dict).len() > 0 && k@ == old(self).cursor().remaining(dict)[0].0
                    && final(self).cursor().remaining(dict) == old(self).cursor().remaining(dict).drop_first(),
                None => old(self).cursor().remaining(dict).len() == 0,
            },
    {
        match self.cursor.step(dict) {
            Ok(Some((k, _v))) => Ok(Some(k)),
            Ok(None) => Ok(None),
            Err(e) => Err(e),
        }
    }
}

impl PyDictValueIterator {
    pub closed spec fn cursor(&self) -> IterCursor {
        self.cursor
    }

    pub fn new(dict: &PyDict) -> (r: PyDictValueIterator)
        requires
            dict.wf(),
        ensures
            r.cursor().wf(),
            !size_changed(dict, r.cursor().snapshot()),
            r.cursor().remaining(dict) == dict.pairs(),
    {
        PyDictValueIterator { cursor: IterCursor::new(dict) }
    }

    pub fn next(&mut self, dict: &PyDict) -> (r: Result<Option<Value>, DictError>)
        requires
            old(self).cursor().wf(),
            dict.wf(),
        ensures
            final(self).cursor().wf(),
            final(self).cursor().snapshot() == old(self).cursor().snapshot(),
            size_changed(dict, old(self).cursor().snapshot()) ==>
                r == Err::<Option<Value>, DictError>(DictError::ChangedSize) && *final(self) == *old(self),
            !size_changed(dict, old(self).cursor().snapshot()) ==> r is Ok && match r->Ok_0 {
                Some(v) => old(self).cursor().remaining(dict).len() > 0 && v@ == old(self).cursor().remaining(dict)[0].1
                    && final(self).cursor().remaining(dict) == old(self).cursor().remaining(dict).drop_first(),
                None => old(self).cursor().remaining(dict).len() == 0,
            },
    {
        match self.cursor.step(dict) {
            Ok(Some((_k, v))) => Ok(Some(v)),
            Ok(None) => Ok(None),
            Err(e) => Err(e),
        }
    }
}

impl PyDictItemIterator {
    pub closed spec fn cursor(&self) -> IterCursor {
        self.cursor
    }

    pub fn new(dict: &PyDict) -> (r: PyDictItemIterator)
        requires
            dict.wf(),
        ensures
            r.cursor().wf(),
            !size_changed(dict, r.cursor().snapshot()),
            r.cursor().remaining(dict) == dict.pairs(),
    {
        PyDictItemIterator { cursor: IterCursor::new(dict) }
    }

    pub fn next(&mut self, dict: &PyDict) -> (r: Result<Option<(Value, Value)>, DictError>)
        requires
            old(self).cursor().wf(),
            dict.wf(),
        ensures
            final(self).cursor().wf(),
            final(self).cursor().snapshot() == old(self).cursor().snapshot(),
            size_changed(dict, old(self).cursor().snapshot()) ==>
                r == Err::<Option<(Value, Value)>, DictError>(DictError::ChangedSize) && *final(self) == *old(self),
            !size_changed(dict, old(self).cursor().snapshot()) ==> r is Ok && match r->Ok_0 {
                Some(kv) => old(self).cursor().remaining(dict).len() > 0 && (kv.0@, kv.1@) == old(self).cursor().remaining(dict)[0]
                    && final(self).cursor().remaining(dict) == old(self).cursor().remaining(dict).drop_first(),
                None => old(self).cursor().remaining(dict).len() == 0,
            },
    {
        self.cursor.step(dict)
    }
}

/// Live view of a mapping's keys.
pub struct PyDictKeys<'a> {
    dict: &'a PyDict,
}

/// Live view of a mapping's values.
pub struct PyDictValues<'a> {
    dict: &'a PyDict,
}

/// Live view of a mapping's entries.
pub struct PyDictItems<'a> {
    dict: &'a PyDict,
}

impl<'a> PyDictKeys<'a> {
    pub closed spec fn dict(&self) -> &'a PyDict {
        self.dict
    }

    pub fn new(dict: &'a PyDict) -> (r: Self)
        ensures
            r.dict() == dict,
    {
        PyDictKeys { dict }
    }

    /// A fresh iterator, with the mapping's counters as they are now.
    pub fn iter(&self) -> (r: PyDictKeyIterator)
        requires
            self.dict().wf(),
        ensures
            r.cursor().wf(),
            !size_changed(self.dict(), r.cursor().snapshot()),
            r.cursor().remaining(self.dict()) == self.dict().pairs(),
    {
        PyDictKeyIterator::new(self.dict)
    }

    /// The mapping's number of entries at the time of the call.
    pub fn len(&self) -> (r: usize)
        requires
            self.dict().wf(),
        ensures
            r == self.dict().pairs().len(),
    {
        self.dict.len()
    }
}

impl<'a> PyDictValues<'a> {
    pub closed spec fn dict(&self) -> &'a PyDict {
        self.dict
    }

    pub fn new(dict: &'a PyDict) -> (r: Self)
        ensures
            r.dict() == dict,
    {
        PyDictValues { dict }
    }

    /// A fresh iterator, with the mapping's counters as they are now.
    pub fn iter(&self) -> (r: PyDictValueIterator)
        requires
            self.dict().wf(),
        ensures
            r.cursor().wf(),
            !size_changed(self.dict(), r.cursor().snapshot()),
            r.cursor().remaining(self.dict()) == self.dict().pairs(),
    {
        PyDictValueIterator::new(self.dict)
    }

    /// The mapping's number of entries at the time of the call.
    pub fn len(&self) -> (r: usize)
        requires
            self.dict().wf(),
        ensures
            r == self.dict().pairs().len(),
    {
        self.dict.len()
    }
}

impl<'a> PyDictItems<'a> {
    pub closed spec fn dict(&self) -> &'a PyDict {
        self.dict
    }

    pub fn new(dict: &'a PyDict) -> (r: Self)
        ensures
            r.dict() == dict,
    {
        PyDictItems { dict }
    }

    /// A fresh iterator, with the mapping's counters as they are now.
    pub fn iter(&self) -> (r: PyDictItemIterator)
        requires
            self.dict().wf(),
        ensures
            r.cursor().wf(),
            !size_changed(self.dict(), r.cursor().snapshot()),
            r.cursor().remaining(self.dict()) == self.dict().pairs(),
    {
        PyDictItemIterator::new(self.dict)
    }

    /// The mapping's number of entries at the time of the call.
    pub fn len(&self) -> (r: usize)
        requires
            self.dict().wf(),
        ensures
            r == self.dict().pairs().len(),
    {
        self.dict.len()
    }
}

impl PyDictRef {
    /// An iterator over the keys.
    pub fn iter(&self) -> (r: PyDictKeyIterator)
        requires
            self.wf(),
        ensures
            r.cursor().wf(),
            !size_changed(self, r.cursor().snapshot()),
            r.cursor().remaining(self) == self.pairs(),
    {
        PyDictKeyIterator::new(self)
    }

    pub fn keys(&self) -> (r: PyDictKeys<'_>)
        ensures
            r.dict() == self,
    {
        PyDictKeys::new(self)
    }

    pub fn values(&self) -> (r: PyDictValues<'_>)
        ensures
            r.dict() == self,
    {
        PyDictValues::new(self)
    }

    pub fn items(&self) -> (r: PyDictItems<'_>)
        ensures
            r.dict() == self,
    {
        PyDictItems::new(self)
    }
}

} // verus!
