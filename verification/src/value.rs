//! The structural value model: interned string handles, field values, and
//! the ordered key/value list used for span identity and message fields.

use vstd::prelude::*;

verus! {

/// Handle to a string owned by an `Interner`. Handles are compared by
/// identity (the table index); under the interner's invariant two handles
/// are equal exactly when their contents are equal.
#[derive(Debug, Clone, Copy, PartialEq, Eq, Structural)]
pub struct IString {
    pub id: usize,
}

/// Identifier of a span, scoped to one store generation.
pub type SpanId = usize;

/// Identifier of a message, scoped to one store generation.
pub type MessageId = usize;

/// A 64-bit float carried as its IEEE-754 bit pattern together with the
/// literal text it was written as. Equality (and hence span deduplication)
/// goes by the bit pattern alone, so it is total: NaN payloads compare by
/// their bits, not by IEEE comparison.
#[derive(Debug, Clone, PartialEq, Eq)]
pub struct EqF64 {
    pub bits: u64,
    pub text: String,
}

/// A raw field value as read from one log line: string, boolean,
/// 64-bit signed integer, or 64-bit float.
#[derive(Debug, Clone, PartialEq, Eq)]
pub enum Value {
    S(String),
    B(bool),
    I(i64),
    F(EqF64),
}

/// A field value after interning: the string payload is replaced by its
/// handle, the other variants pass through unchanged.
#[derive(Debug, Clone)]
pub enum IValue {
    S(IString),
    B(bool),
    I(i64),
    F(EqF64),
}

/// An ordered sequence of key/value pairs standing in for a map.
/// Duplicate keys are preserved and order matters, both for equality and
/// for display: the input format can legitimately repeat a key.
#[derive(Debug, Clone)]
pub struct PseudoMap<K, V> {
    pub vals: Vec<(K, V)>,
}

impl<K, V> View for PseudoMap<K, V> {
    type V = Seq<(K, V)>;

    open spec fn view(&self) -> Seq<(K, V)> {
        self.vals@
    }
}

impl<K, V> PseudoMap<K, V> {
    pub fn new() -> (r: Self)
        ensures
            r@ == Seq::<(K, V)>::empty(),
    {
        PseudoMap { vals: Vec::new() }
    }

    pub fn with_capacity(cap: usize) -> (r: Self)
        ensures
            r@ == Seq::<(K, V)>::empty(),
    {
        PseudoMap { vals: Vec::with_capacity(cap) }
    }
}

impl<K, V> Default for PseudoMap<K, V> {
    fn default() -> (r: Self)
        ensures
            r@ == Seq::<(K, V)>::empty(),
    {
        PseudoMap { vals: Vec::new() }
    }
}

/// Message severity, in decreasing order of urgency.
#[derive(Debug, Clone, Copy, PartialEq, Eq, Structural)]
pub enum Level {
    Error,
    Warn,
    Info,
    Debug,
    Trace,
}

/// Auxiliary per-string bookkeeping recorded when a string is first
/// interned; best-effort metadata, not load-bearing for correctness.
#[derive(Debug, Clone)]
pub struct StringInfo {
    pub num_lines: usize,
}

/// One parsed log line: the required scalar fields, the ordered message
/// fields, and the span-context chain (outermost first, empty if absent).
#[derive(Debug, Clone)]
pub struct JsonMessage {
    pub timestamp: String,
    pub level: String,
    pub fields: PseudoMap<String, Value>,
    pub target: String,
    pub spans: Vec<PseudoMap<String, Value>>,
}

/// The mathematical content of a [`JsonMessage`].
#[verifier::ext_equal]
pub struct RecordModel {
    pub timestamp: Seq<char>,
    pub level: Seq<char>,
    pub fields: Seq<(String, Value)>,
    pub target: Seq<char>,
    pub spans: Seq<Seq<(String, Value)>>,
}

impl View for JsonMessage {
    type V = RecordModel;

    open spec fn view(&self) -> RecordModel {
        RecordModel {
            timestamp: self.timestamp@,
            level: self.level@,
            fields: self.fields@,
            target: self.target@,
            spans: self.spans@.map_values(|p: PseudoMap<String, Value>| p@),
        }
    }
}

/// An exact copy of an interned value (the derived clone carries no
/// specification, so spell it out).
pub fn ivalue_clone(v: &IValue) -> (r: IValue)
    ensures
        r == *v,
{
    match v {
        IValue::S(h) => IValue::S(*h),
        IValue::B(b) => IValue::B(*b),
        IValue::I(i) => IValue::I(*i),
        IValue::F(f) => IValue::F(EqF64 { bits: f.bits, text: f.text.clone() }),
    }
}

/// An exact copy of an interned field list.
pub fn fields_clone(m: &PseudoMap<IString, IValue>) -> (r: PseudoMap<IString, IValue>)
    ensures
        r@ == m@,
{
    let mut out: PseudoMap<IString, IValue> = PseudoMap::new();
    let n = m.vals.len();
    for i in 0..n
        invariant
            n == m@.len(),
            out@ == m@.take(i as int),
    {
        let (k, v) = &m.vals[i];
        let vc = ivalue_clone(v);
        out.vals.push((*k, vc));
        proof {
            assert(m@.take(i as int + 1) =~= m@.take(i as int).push(m@[i as int]));
            assert((*k, vc) == m@[i as int]);
        }
    }
    proof {
        assert(m@.take(n as int) =~= m@);
    }
    out
}

/// Semantic equality of interned values: handles by identity, integers and
/// booleans by value, floats by bit pattern (the carried text is display
/// metadata only).
pub open spec fn ivalue_eq_spec(a: IValue, b: IValue) -> bool {
    match (a, b) {
        (IValue::S(x), IValue::S(y)) => x == y,
        (IValue::B(x), IValue::B(y)) => x == y,
        (IValue::I(x), IValue::I(y)) => x == y,
        (IValue::F(x), IValue::F(y)) => x.bits == y.bits,
        _ => false,
    }
}

pub fn ivalue_eq(a: &IValue, b: &IValue) -> (r: bool)
    ensures
        r == ivalue_eq_spec(*a, *b),
{
    match (a, b) {
        (IValue::S(x), IValue::S(y)) => *x == *y,
        (IValue::B(x), IValue::B(y)) => *x == *y,
        (IValue::I(x), IValue::I(y)) => *x == *y,
        (IValue::F(x), IValue::F(y)) => x.bits == y.bits,
        _ => false,
    }
}

/// Semantic equality of two interned field lists: the full ordered
/// sequences must agree pairwise. This is the structural deduplication key.
pub open spec fn fields_eq_spec(a: Seq<(IString, IValue)>, b: Seq<(IString, IValue)>) -> bool {
    &&& a.len() == b.len()
    &&& forall|i: int|
        0 <= i < a.len() ==> a[i].0 == b[i].0 && ivalue_eq_spec(a[i].1, b[i].1)
}

pub fn fields_eq(a: &PseudoMap<IString, IValue>, b: &PseudoMap<IString, IValue>) -> (r: bool)
    ensures
        r == fields_eq_spec(a@, b@),
{
    if a.vals.len() != b.vals.len() {
        return false;
    }
    let n = a.vals.len();
    for i in 0..n
        invariant
            n == a@.len(),
            a@.len() == b@.len(),
            forall|j: int| 0 <= j < i ==> a@[j].0 == b@[j].0 && ivalue_eq_spec(a@[j].1, b@[j].1),
    {
        let (ka, va) = &a.vals[i];
        let (kb, vb) = &b.vals[i];
        if *ka != *kb {
            return false;
        }
        if !ivalue_eq(va, vb) {
            return false;
        }
    }
    true
}

} // verus!
