//! Runtime values that a mapping holds as keys and values: their abstract
//! model, hashing, equality and printed representation.
use vstd::prelude::*;
use vstd::string::*;
use vstd::utf8::encode_utf8;

verus! {

/// The mathematical value of a [`Value`].
pub enum Val {
    Null,
    Bool(bool),
    Int(i64),
    Str(Seq<char>),
    List(Seq<i64>),
}

/// A runtime object. Lists are mutable and therefore cannot be keys.
#[derive(Clone, Debug, PartialEq, Eq)]
pub enum Value {
    Null,
    Bool(bool),
    Int(i64),
    Str(String),
    List(Vec<i64>),
}

impl View for Value {
    type V = Val;

    open spec fn view(&self) -> Val {
        match self {
            Value::Null => Val::Null,
            Value::Bool(b) => Val::Bool(*b),
            Value::Int(i) => Val::Int(*i),
            Value::Str(s) => Val::Str(s@),
            Value::List(v) => Val::List(v@),
        }
    }
}

/// The failures that mapping operations report.
#[derive(Clone, Debug, PartialEq, Eq)]
pub enum DictError {
    /// A subscript, `pop` or delete on a key that is absent.
    KeyError(Value),
    /// `popitem` on a mapping with no entries.
    EmptyDict,
    /// A key whose type cannot be hashed, or hashing a mapping.
    Unhashable,
    /// A merge element that is not a pair.
    ShapeMismatch,
    /// The mapping changed size while an iterator walked it.
    ChangedSize,
}

pub const HASH_MODULUS: u64 = 4294967291;

pub const HASH_SEED: u64 = 5381;

pub const NONE_HASH: u64 = 0x5a5a5a5a;

/// Polynomial hash of a byte string, reduced modulo a prime below 2^32.
pub open spec fn bytes_hash(b: Seq<u8>) -> u64
    decreases b.len(),
{
    if b.len() == 0 {
        HASH_SEED
    } else {
        ((bytes_hash(b.drop_last()) as int * 33 + b.last() as int) % HASH_MODULUS as int) as u64
    }
}

/// The hash of a value; `None` when the value cannot be hashed.
pub open spec fn hash_of(v: Val) -> Option<u64> {
    match v {
        Val::Null => Some(NONE_HASH),
        Val::Bool(b) => Some(if b { 1u64 } else { 0u64 }),
        Val::Int(i) => Some(i as u64),
        Val::Str(s) => Some(bytes_hash(encode_utf8(s))),
        Val::List(_) => None,
    }
}

pub open spec fn is_hashable(v: Val) -> bool {
    hash_of(v) is Some
}

pub open spec fn digit_char(d: nat) -> char {
    if d == 0 { '0' }
    else if d == 1 { '1' }
    else if d == 2 { '2' }
    else if d == 3 { '3' }
    else if d == 4 { '4' }
    else if d == 5 { '5' }
    else if d == 6 { '6' }
    else if d == 7 { '7' }
    else if d == 8 { '8' }
    else { '9' }
}

/// Decimal digits of a natural number, most significant first.
pub open spec fn digits(n: nat) -> Seq<char>
    decreases n,
{
    if n < 10 {
        seq![digit_char(n)]
    } else {
        digits(n / 10).push(digit_char(n % 10))
    }
}

pub open spec fn int_repr(i: i64) -> Seq<char> {
    if i < 0 {
        seq!['-'] + digits((-i) as nat)
    } else {
        digits(i as nat)
    }
}

pub open spec fn separator() -> Seq<char> {
    seq![',', ' ']
}

/// The parts in order, with `", "` between neighbours.
pub open spec fn join_parts(parts: Seq<Seq<char>>) -> Seq<char>
    decreases parts.len(),
{
    if parts.len() == 0 {
        Seq::empty()
    } else if parts.len() == 1 {
        parts[0]
    } else {
        join_parts(parts.drop_last()) + separator() + parts.last()
    }
}

/// The printed form of a value.
pub open spec fn repr_of(v: Val) -> Seq<char> {
    match v {
        Val::Null => seq!['N', 'o', 'n', 'e'],
        Val::Bool(b) => if b { seq!['T', 'r', 'u', 'e'] } else { seq!['F', 'a', 'l', 's', 'e'] },
        Val::Int(i) => int_repr(i),
        Val::Str(s) => seq!['\''] + s + seq!['\''],
        Val::List(xs) => seq!['['] + join_parts(xs.map_values(|x: i64| int_repr(x))) + seq![']'],
    }
}

/// Appends the decimal digits of `n`.
fn push_digits(out: &mut String, n: u64)
    ensures
        final(out)@ == old(out)@ + digits(n as nat),
    decreases n,
{
    if n >= 10 {
        push_digits(out, n / 10);
    }
    let d = n % 10;
    let s: &str = if d == 0 {
        proof { reveal_strlit("0"); }
        "0"
    } else if d == 1 {
        proof { reveal_strlit("1"); }
        "1"
    } else if d == 2 {
        proof { reveal_strlit("2"); }
        "2"
    } else if d == 3 {
        proof { reveal_strlit("3"); }
        "3"
    } else if d == 4 {
        proof { reveal_strlit("4"); }
        "4"
    } else if d == 5 {
        proof { reveal_strlit("5"); }
        "5"
    } else if d == 6 {
        proof { reveal_strlit("6"); }
        "6"
    } else if d == 7 {
        proof { reveal_strlit("7"); }
        "7"
    } else if d == 8 {
        proof { reveal_strlit("8"); }
        "8"
    } else {
        proof { reveal_strlit("9"); }
        "9"
    };
    out.append(s);
    assert(s@ == seq![digit_char(d as nat)]);
    assert(final(out)@ =~= old(out)@ + digits(n as nat));
}

/// Appends the decimal form of `i`, with a leading `-` when negative.
pub fn push_int(out: &mut String, i: i64)
    ensures
        final(out)@ == old(out)@ + int_repr(i),
{
    if i < 0 {
        proof { reveal_strlit("-"); }
        out.append("-");
        let n: u64 = (0i128 - i as i128) as u64;
        push_digits(out, n);
        assert(final(out)@ =~= old(out)@ + int_repr(i));
    } else {
        push_digits(out, i as u64);
    }
}

impl Value {
    /// Hashes the value; lists are unhashable.
    pub fn hash(&self) -> (r: Result<u64, DictError>)
        ensures
            match hash_of(self@) {
                Some(h) => r == Ok::<u64, DictError>(h),
                None => r == Err::<u64, DictError>(DictError::Unhashable),
            },
    {
        match self {
            Value::Null => Ok(NONE_HASH),
            Value::Bool(b) => Ok(if *b { 1u64 } else { 0u64 }),
            Value::Int(i) => Ok(*i as u64),
            Value::Str(s) => {
                let bytes = s.as_str().as_bytes();
                let mut h: u64 = HASH_SEED;
                let mut i: usize = 0;
                while i < bytes.len()
                    invariant
                        0 <= i <= bytes@.len(),
                        bytes@ == encode_utf8(s@),
                        h < HASH_MODULUS,
                        h == bytes_hash(bytes@.subrange(0, i as int)),
                    decreases bytes@.len() - i,
                {
                    assert(bytes@.subrange(0, i + 1).drop_last() =~= bytes@.subrange(0, i as int));
                    h = (h * 33 + bytes[i] as u64) % HASH_MODULUS;
                    i = i + 1;
                }
                assert(bytes@.subrange(0, i as int) =~= bytes@);
                Ok(h)
            },
            Value::List(_) => Err(DictError::Unhashable),
        }
    }

    /// Structural equality of two values.
    pub fn equals(&self, other: &Value) -> (r: bool)
        ensures
            r == (self@ == other@),
    {
        match (self, other) {
            (Value::Null, Value::Null) => true,
            (Value::Bool(a), Value::Bool(b)) => *a == *b,
            (Value::Int(a), Value::Int(b)) => *a == *b,
            (Value::Str(a), Value::Str(b)) => *a == *b,
            (Value::List(a), Value::List(b)) => {
                if a.len() != b.len() {
                    return false;
                }
                let mut i: usize = 0;
                while i < a.len()
                    invariant
                        0 <= i <= a@.len(),
                        a@.len() == b@.len(),
                        self@ == Val::List(a@),
                        other@ == Val::List(b@),
                        forall|j: int| 0 <= j < i ==> a@[j] == b@[j],
                    decreases a@.len() - i,
                {
                    if a[i] != b[i] {
                        assert(a@[i as int] != b@[i as int]);
                        assert(a@ != b@);
                        return false;
                    }
                    i = i + 1;
                }
                assert(a@ =~= b@);
                true
            },
            _ => false,
        }
    }

    /// A copy of the value.
    pub fn copied(&self) -> (r: Value)
        ensures
            r@ == self@,
    {
        match self {
            Value::Null => Value::Null,
            Value::Bool(b) => Value::Bool(*b),
            Value::Int(i) => Value::Int(*i),
            Value::Str(s) => Value::Str(s.clone()),
            Value::List(v) => {
                let mut w: Vec<i64> = Vec::new();
                let mut i: usize = 0;
                while i < v.len()
                    invariant
                        0 <= i <= v@.len(),
                        w@ == v@.subrange(0, i as int),
                    decreases v@.len() - i,
                {
                    w.push(v[i]);
                    i = i + 1;
                    assert(w@ =~= v@.subrange(0, i as int));
                }
                assert(w@ =~= v@);
                Value::List(w)
            },
        }
    }

    /// Appends the printed form of the value.
    pub fn push_repr(&self, out: &mut String)
        ensures
            final(out)@ == old(out)@ + repr_of(self@),
    {
        match self {
            Value::Null => {
                proof { reveal_strlit("None"); }
                out.append("None");
            },
            Value::Bool(b) => {
                if *b {
                    proof { reveal_strlit("True"); }
                    out.append("True");
                } else {
                    proof { reveal_strlit("False"); }
                    out.append("False");
                }
            },
            Value::Int(i) => push_int(out, *i),
            Value::Str(s) => {
                proof { reveal_strlit("'"); }
                out.append("'");
                out.append(s.as_str());
                out.append("'");
                assert(final(out)@ =~= old(out)@ + repr_of(self@));
            },
            Value::List(xs) => {
                proof {
                    reveal_strlit("[");
                    reveal_strlit("]");
                    reveal_strlit(", ");
                }
                let ghost parts = xs@.map_values(|x: i64| int_repr(x));
                out.append("[");
                let ghost start = out@;
                let mut i: usize = 0;
                while i < xs.len()
                    invariant
                        0 <= i <= xs@.len(),
                        parts == xs@.map_values(|x: i64| int_repr(x)),
                        out@ == start + join_parts(parts.subrange(0, i as int)),
                    decreases xs@.len() - i,
                {
                    let ghost before = out@;
                    if i > 0 {
                        out.append(", ");
                    }
                    push_int(out, xs[i]);
                    proof {
                        let p = parts.subrange(0, i + 1);
                        assert(p.drop_last() =~= parts.subrange(0, i as int));
                        assert(p.last() == int_repr(xs@[i as int]));
                        reveal_strlit(", ");
                        assert(", "@ =~= separator());
                        if i == 0 {
                            assert(out@ =~= start + join_parts(p));
                        } else {
                            assert(out@ =~= start + join_parts(p));
                        }
                    }
                    i = i + 1;
                }
                assert(parts.subrange(0, i as int) =~= parts);
                out.append("]");
                assert(final(out)@ =~= old(out)@ + repr_of(self@));
            },
        }
    }
}

} // verus!
