use pydict::dictdatatype::Dict;
use pydict::objdict::{
    DictIter, MergeSource, MissingKeyHandler, PyDict, PyDictItemIterator, PyDictRef,
    PyDictValueIterator,
};
use pydict::value::{DictError, Value};

fn s(x: &str) -> Value {
    Value::Str(x.to_string())
}

fn num(i: i64) -> Value {
    Value::Int(i)
}

fn empty() -> PyDict {
    PyDict::new(None, vec![]).unwrap()
}

fn keys(d: &PyDict) -> Vec<Value> {
    let view = d.keys();
    let mut it = view.iter();
    let mut out = Vec::new();
    while let Some(k) = it.next(d).unwrap() {
        out.push(k);
    }
    out
}

fn items(d: &PyDict) -> Vec<(Value, Value)> {
    let mut it = DictIter::new(d);
    let mut out = Vec::new();
    while let Some(kv) = it.next() {
        out.push(kv);
    }
    out
}

fn pairs(ps: &[(&str, i64)]) -> Vec<Vec<Value>> {
    ps.iter().map(|(k, v)| vec![s(k), num(*v)]).collect()
}

#[test]
fn insertion_order_of_distinct_keys() {
    let mut d = empty();
    for (i, k) in ["z", "a", "m", "b"].iter().enumerate() {
        d.inner_setitem(s(k), num(i as i64)).unwrap();
    }
    assert_eq!(keys(&d), vec![s("z"), s("a"), s("m"), s("b")]);
}

#[test]
fn update_keeps_position() {
    let mut d = empty();
    d.inner_setitem(s("a"), num(1)).unwrap();
    d.inner_setitem(s("b"), num(2)).unwrap();
    d.inner_setitem(s("c"), num(3)).unwrap();
    d.inner_setitem(s("a"), num(10)).unwrap();
    assert_eq!(items(&d), vec![(s("a"), num(10)), (s("b"), num(2)), (s("c"), num(3))]);
    assert_eq!(d.len(), 3);
}

#[test]
fn popitem_is_fifo() {
    let mut d = empty();
    d.inner_setitem(s("x"), num(1)).unwrap();
    d.inner_setitem(s("y"), num(2)).unwrap();
    d.inner_setitem(s("z"), num(3)).unwrap();
    d.inner_delitem(&s("x")).unwrap();
    assert_eq!(d.popitem().unwrap(), (s("y"), num(2)));
    assert_eq!(d.popitem().unwrap(), (s("z"), num(3)));
    assert_eq!(d.popitem(), Err(DictError::EmptyDict));
}

#[test]
fn iterator_fails_after_insert() {
    let mut d = empty();
    d.inner_setitem(s("a"), num(1)).unwrap();
    d.inner_setitem(s("b"), num(2)).unwrap();
    d.inner_setitem(s("c"), num(3)).unwrap();
    let mut it = d.iter();
    assert_eq!(it.next(&d), Ok(Some(s("a"))));
    d.inner_setitem(s("d"), num(4)).unwrap();
    assert_eq!(it.next(&d), Err(DictError::ChangedSize));
    assert_eq!(it.next(&d), Err(DictError::ChangedSize));
}

#[test]
fn iterator_fails_after_delete_then_insert() {
    let mut d = empty();
    d.inner_setitem(s("a"), num(1)).unwrap();
    d.inner_setitem(s("b"), num(2)).unwrap();
    let mut it = d.items().iter();
    assert_eq!(it.next(&d), Ok(Some((s("a"), num(1)))));
    d.inner_delitem(&s("b")).unwrap();
    d.inner_setitem(s("c"), num(3)).unwrap();
    assert_eq!(d.len(), 2);
    assert_eq!(it.next(&d), Err(DictError::ChangedSize));
}

#[test]
fn iterator_survives_value_update_and_is_not_restartable() {
    let mut d = empty();
    d.inner_setitem(s("a"), num(1)).unwrap();
    d.inner_setitem(s("b"), num(2)).unwrap();
    let mut it: PyDictValueIterator = d.values().iter();
    assert_eq!(it.next(&d), Ok(Some(num(1))));
    d.inner_setitem(s("b"), num(20)).unwrap();
    assert_eq!(it.next(&d), Ok(Some(num(20))));
    assert_eq!(it.next(&d), Ok(None));
    assert_eq!(it.next(&d), Ok(None));
    let mut fresh: PyDictItemIterator = d.items().iter();
    assert_eq!(fresh.next(&d), Ok(Some((s("a"), num(1)))));
}

#[test]
fn view_length_is_live() {
    let mut d = empty();
    d.inner_setitem(s("a"), num(1)).unwrap();
    assert_eq!(d.keys().len(), 1);
    d.inner_setitem(s("b"), num(2)).unwrap();
    assert_eq!(d.keys().len(), 2);
    assert_eq!(d.values().len(), 2);
    assert_eq!(d.items().len(), 2);
}

#[test]
fn equality_ignores_order() {
    let mut a = empty();
    a.inner_setitem(s("a"), num(1)).unwrap();
    a.inner_setitem(s("b"), num(2)).unwrap();
    let mut b = empty();
    b.inner_setitem(s("b"), num(2)).unwrap();
    b.inner_setitem(s("a"), num(1)).unwrap();
    assert!(a.inner_eq(&b));
    assert!(b.eq(&a));
    b.inner_setitem(s("a"), num(5)).unwrap();
    assert!(!a.inner_eq(&b));
    b.inner_setitem(s("a"), num(1)).unwrap();
    b.inner_setitem(s("c"), num(1)).unwrap();
    assert!(!a.inner_eq(&b));
}

#[test]
fn equality_of_different_keys_same_size() {
    let mut a = empty();
    a.inner_setitem(s("a"), num(1)).unwrap();
    let mut b = empty();
    b.inner_setitem(s("b"), num(1)).unwrap();
    assert!(!a.inner_eq(&b));
    assert!(empty().inner_eq(&empty()));
}

#[test]
fn hashing_a_mapping_fails() {
    assert_eq!(empty().hash(), Err(DictError::Unhashable));
    let mut d = empty();
    d.inner_setitem(s("a"), num(1)).unwrap();
    assert_eq!(d.hash(), Err(DictError::Unhashable));
}

#[test]
fn scenario_insert_delete_popitem() {
    let mut d = empty();
    d.inner_setitem(s("a"), num(1)).unwrap();
    d.inner_setitem(s("b"), num(2)).unwrap();
    d.inner_setitem(s("c"), num(3)).unwrap();
    assert_eq!(keys(&d), vec![s("a"), s("b"), s("c")]);
    d.inner_delitem(&s("b")).unwrap();
    assert_eq!(keys(&d), vec![s("a"), s("c")]);
    assert_eq!(d.popitem().unwrap(), (s("a"), num(1)));
    assert_eq!(items(&d), vec![(s("c"), num(3))]);
    assert_eq!(d.repr(), "{'c': 3}");
}

#[test]
fn scenario_pairs_then_keywords() {
    let d = PyDict::new(
        Some(MergeSource::Pairs(pairs(&[("x", 1), ("y", 2)]))),
        vec![("y".to_string(), num(3))],
    )
    .unwrap();
    assert_eq!(items(&d), vec![(s("x"), num(1)), (s("y"), num(3))]);
    assert_eq!(d.repr(), "{'x': 1, 'y': 3}");
}

#[test]
fn scenario_fromkeys() {
    let d = PyDict::fromkeys(vec![s("p"), s("q")], Some(num(0))).unwrap();
    assert_eq!(items(&d), vec![(s("p"), num(0)), (s("q"), num(0))]);
    let n = PyDict::fromkeys(vec![s("p"), s("p"), num(7)], None).unwrap();
    assert_eq!(items(&n), vec![(s("p"), Value::Null), (num(7), Value::Null)]);
}

#[test]
fn scenario_merge_rejects_non_pair() {
    let mut d = empty();
    let source = vec![vec![s("a"), num(1)], vec![s("b")]];
    assert_eq!(d.update(Some(MergeSource::Pairs(source)), vec![]), Err(DictError::ShapeMismatch));
    assert_eq!(d.contains(&s("a")), Ok(true));
    assert_eq!(items(&d), vec![(s("a"), num(1))]);
}

#[test]
fn merge_rejects_triple_and_unhashable_key() {
    let triple = vec![vec![s("a"), num(1), num(2)]];
    assert!(matches!(
        PyDict::new(Some(MergeSource::Pairs(triple)), vec![]),
        Err(DictError::ShapeMismatch)
    ));
    let list_key = vec![vec![s("a"), num(1)], vec![Value::List(vec![1]), num(2)], vec![s("c"), num(3)]];
    let mut d = empty();
    assert_eq!(d.update(Some(MergeSource::Pairs(list_key)), vec![("k".to_string(), num(9))]), Err(DictError::Unhashable));
    assert_eq!(items(&d), vec![(s("a"), num(1))]);
}

#[test]
fn merge_from_mapping_keeps_its_order() {
    let mut src = empty();
    src.inner_setitem(s("b"), num(2)).unwrap();
    src.inner_setitem(s("a"), num(1)).unwrap();
    let mut d = empty();
    d.inner_setitem(s("a"), num(0)).unwrap();
    d.update(Some(MergeSource::Mapping(src)), vec![("c".to_string(), num(3))]).unwrap();
    assert_eq!(items(&d), vec![(s("a"), num(1)), (s("b"), num(2)), (s("c"), num(3))]);
}

#[test]
fn getitem_misses() {
    let mut d = empty();
    d.inner_setitem(num(5), s("five")).unwrap();
    assert_eq!(d.inner_getitem::<NoHook>(&num(5), None), Ok(s("five")));
    assert_eq!(d.inner_getitem::<NoHook>(&num(6), None), Err(DictError::KeyError(num(6))));
    assert_eq!(d.inner_getitem::<NoHook>(&Value::List(vec![]), None), Err(DictError::Unhashable));
    let hook = Echo;
    assert_eq!(d.inner_getitem(&num(6), Some(&hook)), Ok(num(6)));
    assert_eq!(d.inner_getitem(&num(5), Some(&hook)), Ok(s("five")));
}

struct NoHook;

impl MissingKeyHandler for NoHook {
    fn missing(&self, key: &Value) -> Result<Value, DictError> {
        Err(DictError::KeyError(key.clone()))
    }
}

struct Echo;

impl MissingKeyHandler for Echo {
    fn missing(&self, key: &Value) -> Result<Value, DictError> {
        Ok(key.clone())
    }
}

#[test]
fn get_and_setdefault() {
    let mut d = empty();
    d.inner_setitem(s("a"), num(1)).unwrap();
    assert_eq!(d.get(&s("a"), Some(num(9))), Ok(num(1)));
    assert_eq!(d.get(&s("b"), Some(num(9))), Ok(num(9)));
    assert_eq!(d.get(&s("b"), None), Ok(Value::Null));
    assert_eq!(d.len(), 1);
    assert_eq!(d.setdefault(s("a"), Some(num(7))), Ok(num(1)));
    assert_eq!(d.setdefault(s("b"), Some(num(7))), Ok(num(7)));
    assert_eq!(d.setdefault(s("c"), None), Ok(Value::Null));
    assert_eq!(items(&d), vec![(s("a"), num(1)), (s("b"), num(7)), (s("c"), Value::Null)]);
}

#[test]
fn pop_and_delete_errors() {
    let mut d = empty();
    d.inner_setitem(Value::Bool(true), num(1)).unwrap();
    assert_eq!(d.pop(&Value::Bool(false)), Err(DictError::KeyError(Value::Bool(false))));
    assert_eq!(d.inner_delitem(&Value::Null), Err(DictError::KeyError(Value::Null)));
    assert_eq!(d.pop(&Value::List(vec![1, 2])), Err(DictError::Unhashable));
    assert_eq!(d.pop(&Value::Bool(true)), Ok(num(1)));
    assert!(!d.bool());
    assert_eq!(d.inner_setitem(Value::List(vec![]), num(1)), Err(DictError::Unhashable));
    assert_eq!(d.contains(&Value::List(vec![])), Err(DictError::Unhashable));
}

#[test]
fn repr_of_mixed_values() {
    let mut d = empty();
    assert_eq!(d.repr(), "{}");
    d.inner_setitem(s("a"), num(-12)).unwrap();
    d.inner_setitem(num(0), Value::List(vec![1, -2, 30])).unwrap();
    d.inner_setitem(Value::Null, Value::Bool(false)).unwrap();
    d.inner_setitem(Value::Bool(true), Value::List(vec![])).unwrap();
    d.inner_setitem(num(i64::MIN), Value::Null).unwrap();
    assert_eq!(
        d.repr(),
        "{'a': -12, 0: [1, -2, 30], None: False, True: [], -9223372036854775808: None}"
    );
}

#[test]
fn attributes_round_trip() {
    let attrs = vec![("x".to_string(), num(1)), ("y".to_string(), s("v")), ("x".to_string(), num(3))];
    let d = PyDictRef::from_attributes(attrs).unwrap();
    assert_eq!(items(&d), vec![(s("x"), num(3)), (s("y"), s("v"))]);
    assert_eq!(d.to_attributes(), vec![("x".to_string(), num(3)), ("y".to_string(), s("v"))]);
    assert!(d.contains_key(&s("y")));
    assert!(!d.contains_key(&s("z")));
}

#[test]
fn copy_is_independent() {
    let mut d = empty();
    d.inner_setitem(s("a"), num(1)).unwrap();
    let mut c = d.copy();
    c.inner_setitem(s("b"), num(2)).unwrap();
    assert_eq!(d.len(), 1);
    assert_eq!(c.len(), 2);
    d.clear();
    assert_eq!(d.len(), 0);
    assert_eq!(items(&c), vec![(s("a"), num(1)), (s("b"), num(2))]);
}

#[test]
fn size_counts_tombstones() {
    let mut d = empty();
    d.inner_setitem(s("a"), num(1)).unwrap();
    d.inner_setitem(s("b"), num(2)).unwrap();
    d.inner_delitem(&s("a")).unwrap();
    let size = d.size();
    assert_eq!(size.used, 1);
    assert_eq!(size.filled, 2);
    d.clear();
    assert_eq!(d.size().used, 0);
    assert_eq!(d.size().filled, 0);
}

#[test]
fn many_entries_survive_growth_and_compaction() {
    let mut d = empty();
    for i in 0..2000i64 {
        d.inner_setitem(num(i), num(i * 2)).unwrap();
    }
    for i in 0..2000i64 {
        if i % 3 != 0 {
            d.inner_delitem(&num(i)).unwrap();
        }
    }
    for i in 2000..2500i64 {
        d.inner_setitem(num(i), num(i)).unwrap();
    }
    assert_eq!(d.len(), 667 + 500);
    for i in 0..2000i64 {
        let expect = if i % 3 == 0 { Some(num(i * 2)) } else { None };
        assert_eq!(d.get(&num(i), None).ok().filter(|v| *v != Value::Null), expect);
    }
    let ks = keys(&d);
    assert_eq!(ks[0], num(0));
    assert_eq!(ks[1], num(3));
    assert_eq!(ks[666], num(1998));
    assert_eq!(ks[667], num(2000));
    assert_eq!(ks[ks.len() - 1], num(2499));
}

#[test]
fn colliding_hashes_are_told_apart() {
    let mut t = Dict::new();
    t.insert(num(1), s("one")).unwrap();
    t.insert(num(9), s("nine")).unwrap();
    t.insert(num(17), s("seventeen")).unwrap();
    t.delete(&num(9)).unwrap();
    assert_eq!(t.get(&num(17)), Ok(Some(s("seventeen"))));
    assert_eq!(t.get(&num(9)), Ok(None));
    assert_eq!(t.get(&num(25)), Ok(None));
    assert_eq!(t.len(), 2);
}

#[test]
fn string_keys_hash_by_content() {
    assert_eq!(s("").hash(), Ok(5381));
    assert_eq!(s("a").hash(), Ok(5381 * 33 + 97));
    assert_eq!(s("ab").hash(), s("ab").hash());
    assert_ne!(s("ab").hash(), s("ba").hash());
    assert_eq!(Value::List(vec![1]).hash(), Err(DictError::Unhashable));
    let mut d = empty();
    d.inner_setitem(s("key"), num(1)).unwrap();
    let mut probe = String::from("ke");
    probe.push('y');
    assert_eq!(d.get(&Value::Str(probe), None), Ok(num(1)));
}
