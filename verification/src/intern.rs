//! The string interner: canonicalizes equal strings to one shared table
//! entry, so later comparisons are handle comparisons instead of character
//! comparisons.

use vstd::prelude::*;

use crate::text::{chars_of, str_eq};
use crate::value::{IString, IValue, PseudoMap, StringInfo, Value};

verus! {

/// No two table entries hold the same content.
pub open spec fn table_inj(t: Seq<Seq<char>>) -> bool {
    forall|i: int, j: int| 0 <= i < j < t.len() ==> t[i] != t[j]
}

/// Interning one string into a table: the handle of the existing entry with
/// equal content, or the index of a newly pushed entry. Under [`table_inj`]
/// the chosen index is unique.
pub open spec fn spec_intern(t: Seq<Seq<char>>, s: Seq<char>) -> (Seq<Seq<char>>, int) {
    if exists|i: int| 0 <= i < t.len() && t[i] == s {
        (t, choose|i: int| 0 <= i < t.len() && t[i] == s)
    } else {
        (t.push(s), t.len() as int)
    }
}

/// Interning one raw value: the string payload is interned, other variants
/// pass through and leave the table unchanged.
pub open spec fn spec_intern_val(t: Seq<Seq<char>>, v: Value) -> (Seq<Seq<char>>, IValue) {
    match v {
        Value::S(s) => {
            let (t1, h) = spec_intern(t, s@);
            (t1, IValue::S(IString { id: h as usize }))
        },
        Value::B(b) => (t, IValue::B(b)),
        Value::I(i) => (t, IValue::I(i)),
        Value::F(f) => (t, IValue::F(f)),
    }
}

/// Interning an ordered field list, pair by pair in order: each key is
/// interned, then its value.
pub open spec fn spec_intern_fields(t: Seq<Seq<char>>, pairs: Seq<(String, Value)>) -> (
    Seq<Seq<char>>,
    Seq<(IString, IValue)>,
)
    decreases pairs.len(),
{
    if pairs.len() == 0 {
        (t, Seq::empty())
    } else {
        let (t1, done) = spec_intern_fields(t, pairs.drop_last());
        let (k, v) = pairs.last();
        let (t2, hk) = spec_intern(t1, k@);
        let (t3, iv) = spec_intern_val(t2, v);
        (t3, done.push((IString { id: hk as usize }, iv)))
    }
}

/// The number of lines in a string, counted as `str::lines` does: an empty
/// string has none, and a trailing newline does not open a new line.
pub open spec fn count_newlines(s: Seq<char>) -> nat
    decreases s.len(),
{
    if s.len() == 0 {
        0
    } else {
        count_newlines(s.drop_last()) + (if s.last() == '\n' {
            1nat
        } else {
            0nat
        })
    }
}

pub open spec fn spec_num_lines(s: Seq<char>) -> nat {
    if s.len() == 0 {
        0
    } else {
        1 + count_newlines(s.take(s.len() - 1))
    }
}

/// A content-addressed string interner. The table is append-only: once a
/// string is interned its handle stays valid and keeps its content for the
/// interner's lifetime.
#[derive(Debug, Clone)]
pub struct Interner {
    pub strings: Vec<String>,
    pub facts: Vec<StringInfo>,
}

impl Interner {
    /// The interned contents, by handle index.
    pub open spec fn table(self) -> Seq<Seq<char>> {
        self.strings@.map_values(|s: String| s@)
    }

    /// Injectivity: distinct handles always hold distinct contents, so
    /// handle equality coincides with content equality.
    pub open spec fn wf(self) -> bool {
        &&& self.facts@.len() == self.strings@.len()
        &&& table_inj(self.table())
    }

    pub open spec fn valid(self, h: IString) -> bool {
        h.id < self.table().len()
    }

    pub open spec fn str_of(self, h: IString) -> Seq<char> {
        self.table()[h.id as int]
    }

    pub open spec fn contains_str(self, s: Seq<char>) -> bool {
        exists|i: int| 0 <= i < self.table().len() && self.table()[i] == s
    }

    pub fn new() -> (r: Self)
        ensures
            r.wf(),
            r.table() == Seq::<Seq<char>>::empty(),
    {
        let r = Interner { strings: Vec::new(), facts: Vec::new() };
        proof {
            assert(r.table() =~= Seq::<Seq<char>>::empty());
        }
        r
    }

    /// Returns the canonical handle for `val`, storing a new table entry
    /// only on first sight. Repeated calls with equal content return the
    /// same handle; existing handles and their contents never change.
    pub fn intern_str(&mut self, val: &str) -> (r: IString)
        requires
            old(self).wf(),
        ensures
            final(self).wf(),
            final(self).valid(r),
            final(self).str_of(r) == val@,
            (final(self).table(), r.id as int) == spec_intern(old(self).table(), val@),
            old(self).table().len() <= final(self).table().len(),
            forall|h: IString|
                old(self).valid(h) ==> final(self).valid(h) && final(self).str_of(h) == old(
                    self,
                ).str_of(h),
            forall|h: IString| old(self).valid(h) && old(self).str_of(h) == val@ ==> h == r,
            !old(self).contains_str(val@) ==> final(self).facts@ == old(self).facts@.push(
                StringInfo { num_lines: spec_num_lines(val@) as usize },
            ),
    {
        let ghost t0 = self.table();
        let n = self.strings.len();
        let mut idx: usize = 0;
        while idx < n
            invariant
                *self == *old(self),
                t0 == old(self).table(),
                old(self).wf(),
                n == self.strings@.len(),
                idx <= n,
                forall|j: int| 0 <= j < idx ==> self.table()[j] != val@,
            decreases n - idx,
        {
            if str_eq(self.strings[idx].as_str(), val) {
                proof {
                    assert(t0 == self.table());
                    assert(self.table()[idx as int] == val@);
                    assert(0 <= idx < t0.len() && t0[idx as int] == val@);
                    let r = IString { id: idx };
                    assert forall|h: IString|
                        self.valid(h) && self.str_of(h) == val@ implies h == r by {
                        if h.id != idx {
                            if h.id < idx {
                                assert(self.table()[h.id as int] != self.table()[idx as int]);
                            } else {
                                assert(self.table()[idx as int] != self.table()[h.id as int]);
                            }
                        }
                    }
                    let c = choose|i: int| 0 <= i < t0.len() && t0[i] == val@;
                    assert(0 <= c < t0.len() && t0[c] == val@);
                    assert(self.valid(IString { id: c as usize }));
                    assert(IString { id: c as usize } == r);
                }
                return IString { id: idx };
            }
            idx += 1;
        }
        proof {
            assert(!old(self).contains_str(val@));
        }
        // First sight: store the content, record its line count.
        let num_lines = count_lines(val);
        self.strings.push(val.to_owned());
        self.facts.push(StringInfo { num_lines });
        proof {
            assert(self.table() =~= t0.push(val@));
            assert forall|i: int, j: int|
                0 <= i < j < self.table().len() implies self.table()[i] != self.table()[j] by {
                if j == t0.len() {
                    assert(self.table()[i] == t0[i]);
                } else {
                    assert(self.table()[i] == t0[i] && self.table()[j] == t0[j]);
                }
            }
        }
        IString { id: n }
    }

    /// Interns the string payload of a string-variant value; other variants
    /// pass through unchanged.
    pub fn intern_val(&mut self, val: Value) -> (r: IValue)
        requires
            old(self).wf(),
        ensures
            final(self).wf(),
            (final(self).table(), r) == spec_intern_val(old(self).table(), val),
            old(self).table().len() <= final(self).table().len(),
            forall|h: IString|
                old(self).valid(h) ==> final(self).valid(h) && final(self).str_of(h) == old(
                    self,
                ).str_of(h),
            r matches IValue::S(h) ==> final(self).valid(h),
    {
        match val {
            Value::S(s) => {
                let h = self.intern_str(s.as_str());
                IValue::S(h)
            },
            Value::B(b) => IValue::B(b),
            Value::I(i) => IValue::I(i),
            Value::F(f) => IValue::F(f),
        }
    }

    /// Interns an ordered field list pair by pair, preserving order and
    /// duplicate keys.
    pub fn intern_pseudo(&mut self, val: PseudoMap<String, Value>) -> (r: PseudoMap<
        IString,
        IValue,
    >)
        requires
            old(self).wf(),
        ensures
            final(self).wf(),
            (final(self).table(), r@) == spec_intern_fields(old(self).table(), val@),
            old(self).table().len() <= final(self).table().len(),
            forall|h: IString|
                old(self).valid(h) ==> final(self).valid(h) && final(self).str_of(h) == old(
                    self,
                ).str_of(h),
            r@.len() == val@.len(),
            forall|i: int|
                0 <= i < r@.len() ==> {
                    &&& final(self).valid((#[trigger] r@[i]).0)
                    &&& final(self).str_of(r@[i].0) == val@[i].0@
                    &&& (r@[i].1 matches IValue::S(h) ==> final(self).valid(h))
                },
    {
        let ghost t0 = old(self).table();
        let ghost pairs = val.vals@;
        let mut out: PseudoMap<IString, IValue> = PseudoMap::new();
        let n = val.vals.len();
        let mut i: usize = 0;
        let mut vals = val.vals;
        // Consume the pairs front to back, interning key then value.
        while i < n
            invariant
                self.wf(),
                i <= n,
                n == pairs.len(),
                vals@ == pairs.skip(i as int),
                (self.table(), out@) == spec_intern_fields(t0, pairs.take(i as int)),
                t0.len() <= self.table().len(),
                forall|h: IString|
                    old(self).valid(h) ==> self.valid(h) && self.str_of(h) == old(self).str_of(h),
                out@.len() == i,
                forall|j: int|
                    0 <= j < out@.len() ==> self.valid((#[trigger] out@[j]).0) && self.str_of(
                        out@[j].0,
                    ) == pairs[j].0@ && (out@[j].1 matches IValue::S(h) ==> self.valid(h)),
            decreases n - i,
        {
            let (k, v) = vals.remove(0);
            proof {
                assert(pairs.take(i as int + 1).drop_last() =~= pairs.take(i as int));
                assert(pairs.take(i as int + 1).last() == pairs[i as int]);
                assert(pairs.skip(i as int)[0] == pairs[i as int]);
                assert(pairs.skip(i as int).remove(0) =~= pairs.skip(i as int + 1));
            }
            let hk = self.intern_str(k.as_str());
            let iv = self.intern_val(v);
            out.vals.push((hk, iv));
            i += 1;
        }
        proof {
            assert(pairs.take(n as int) =~= pairs);
        }
        out
    }
}

/// The number of lines in a string, counted as `str::lines` does.
pub fn count_lines(val: &str) -> (r: usize)
    ensures
        r == spec_num_lines(val@),
{
    let cs = chars_of(val);
    if cs.len() == 0 {
        return 0;
    }
    let m = cs.len() - 1;
    let mut nl: usize = 0;
    for i in 0..m
        invariant
            cs@ == val@,
            m == cs@.len() - 1,
            nl == count_newlines(cs@.take(i as int)),
            nl <= i,
    {
        proof {
            assert(cs@.take(i as int + 1).drop_last() =~= cs@.take(i as int));
            assert(cs@.take(i as int + 1).last() == cs@[i as int]);
        }
        if cs[i] == '\n' {
            nl += 1;
        }
    }
    nl + 1
}

/// Basic facts about one interning step: the table is extended in place
/// (existing entries never move), stays injective, and the handle points at
/// the interned content.
pub proof fn lemma_spec_intern_props(t: Seq<Seq<char>>, s: Seq<char>)
    requires
        table_inj(t),
    ensures
        ({
            let (t1, h) = spec_intern(t, s);
            &&& table_inj(t1)
            &&& t.len() <= t1.len() <= t.len() + 1
            &&& (forall|i: int| 0 <= i < t.len() ==> t1[i] == t[i])
            &&& 0 <= h < t1.len()
            &&& h <= t.len()
            &&& t1[h] == s
        }),
{
    let (t1, h) = spec_intern(t, s);
    if exists|i: int| 0 <= i < t.len() && t[i] == s {
        let c = choose|i: int| 0 <= i < t.len() && t[i] == s;
        assert(0 <= c < t.len() && t[c] == s);
    } else {
        assert forall|i: int, j: int| 0 <= i < j < t1.len() implies t1[i] != t1[j] by {
            if j == t.len() {
                assert(t1[i] == t[i]);
            } else {
                assert(t1[i] == t[i] && t1[j] == t[j]);
            }
        }
    }
}

/// Interning content that the table already holds finds it: the table is
/// unchanged and the existing handle comes back.
pub proof fn lemma_intern_found(t: Seq<Seq<char>>, s: Seq<char>, h: int)
    requires
        table_inj(t),
        0 <= h < t.len(),
        t[h] == s,
    ensures
        spec_intern(t, s) == (t, h),
{
    let c = choose|i: int| 0 <= i < t.len() && t[i] == s;
    assert(0 <= c < t.len() && t[c] == s);
    if c != h {
        if c < h {
            assert(t[c] != t[h]);
        } else {
            assert(t[h] != t[c]);
        }
    }
}

/// One raw pair and its interned form agree under a table: the key handle
/// holds the key content, and the value is the same value with any string
/// payload replaced by a handle to equal content.
pub open spec fn interned_pair_ok(
    t: Seq<Seq<char>>,
    p: (String, Value),
    q: (IString, IValue),
) -> bool {
    &&& q.0.id < t.len()
    &&& t[q.0.id as int] == p.0@
    &&& (match p.1 {
        Value::S(sv) => q.1 matches IValue::S(h) && h.id < t.len() && t[h.id as int] == sv@,
        Value::B(b) => q.1 == IValue::B(b),
        Value::I(x) => q.1 == IValue::I(x),
        Value::F(f) => q.1 == IValue::F(f),
    })
}

/// Facts about interning a whole field list: the table is extended in
/// place and stays injective, and each resulting pair agrees with its raw
/// pair under the resulting table.
pub proof fn lemma_spec_intern_fields_props(t: Seq<Seq<char>>, pairs: Seq<(String, Value)>)
    requires
        table_inj(t),
        t.len() + 2 * pairs.len() <= usize::MAX,
    ensures
        ({
            let (t1, f) = spec_intern_fields(t, pairs);
            &&& table_inj(t1)
            &&& t.len() <= t1.len() <= t.len() + 2 * pairs.len()
            &&& (forall|i: int| 0 <= i < t.len() ==> t1[i] == t[i])
            &&& f.len() == pairs.len()
            &&& (forall|i: int|
                0 <= i < pairs.len() ==> interned_pair_ok(t1, pairs[i], #[trigger] f[i]))
        }),
    decreases pairs.len(),
{
    let (t1, f) = spec_intern_fields(t, pairs);
    if pairs.len() > 0 {
        lemma_spec_intern_fields_props(t, pairs.drop_last());
        let (ta, done) = spec_intern_fields(t, pairs.drop_last());
        let (k, v) = pairs.last();
        lemma_spec_intern_props(ta, k@);
        let (tb, hk) = spec_intern(ta, k@);
        lemma_spec_intern_val_props(tb, v);
        let (tc, iv) = spec_intern_val(tb, v);
        assert forall|i: int| 0 <= i < pairs.len() implies interned_pair_ok(
            t1,
            pairs[i],
            #[trigger] f[i],
        ) by {
            if i < pairs.len() - 1 {
                assert(pairs.drop_last()[i] == pairs[i]);
                assert(done[i] == f[i]);
                assert(interned_pair_ok(ta, pairs[i], done[i]));
            } else {
                assert(pairs[i] == pairs.last());
                assert(f[i] == (IString { id: hk as usize }, iv));
            }
        }
    }
}

/// Facts about interning one value.
pub proof fn lemma_spec_intern_val_props(t: Seq<Seq<char>>, v: Value)
    requires
        table_inj(t),
        t.len() < usize::MAX,
    ensures
        ({
            let (t1, iv) = spec_intern_val(t, v);
            &&& table_inj(t1)
            &&& t.len() <= t1.len() <= t.len() + 1
            &&& (forall|i: int| 0 <= i < t.len() ==> t1[i] == t[i])
            &&& (match v {
                Value::S(sv) => iv matches IValue::S(h) && h.id < t1.len() && t1[h.id as int]
                    == sv@,
                Value::B(b) => iv == IValue::B(b) && t1 == t,
                Value::I(x) => iv == IValue::I(x) && t1 == t,
                Value::F(f) => iv == IValue::F(f) && t1 == t,
            })
        }),
{
    match v {
        Value::S(sv) => {
            lemma_spec_intern_props(t, sv@);
        },
        _ => {},
    }
}

/// Re-interning a field list whose contents an (injective) table already
/// holds at the recorded handles changes nothing: the same handles come
/// back and the table stays as it is.
pub proof fn lemma_spec_intern_fields_stable(
    t2: Seq<Seq<char>>,
    pairs: Seq<(String, Value)>,
    f: Seq<(IString, IValue)>,
)
    requires
        table_inj(t2),
        f.len() == pairs.len(),
        forall|i: int| 0 <= i < pairs.len() ==> interned_pair_ok(t2, pairs[i], #[trigger] f[i]),
    ensures
        spec_intern_fields(t2, pairs) == (t2, f),
    decreases pairs.len(),
{
    if pairs.len() == 0 {
        assert(f =~= Seq::<(IString, IValue)>::empty());
    } else {
        assert forall|i: int| 0 <= i < pairs.drop_last().len() implies interned_pair_ok(
            t2,
            pairs.drop_last()[i],
            #[trigger] f.drop_last()[i],
        ) by {
            assert(pairs.drop_last()[i] == pairs[i]);
            assert(f.drop_last()[i] == f[i]);
        }
        lemma_spec_intern_fields_stable(t2, pairs.drop_last(), f.drop_last());
        let (k, v) = pairs.last();
        let q = f.last();
        assert(interned_pair_ok(t2, pairs[pairs.len() - 1], f[f.len() - 1]));
        lemma_intern_found(t2, k@, q.0.id as int);
        match v {
            Value::S(sv) => {
                let h = q.1->S_0;
                lemma_intern_found(t2, sv@, h.id as int);
                assert(spec_intern_val(t2, v) == (t2, q.1));
            },
            _ => {},
        }
        assert(spec_intern_fields(t2, pairs) == (
            t2,
            f.drop_last().push((IString { id: q.0.id }, q.1)),
        ));
        assert(f.drop_last().push((IString { id: q.0.id }, q.1)) =~= f);
    }
}

/// Interner identity law: interning two strings in sequence yields equal
/// handles exactly when the contents are equal.
pub proof fn lemma_intern_identity(t: Seq<Seq<char>>, a: Seq<char>, b: Seq<char>)
    requires
        table_inj(t),
    ensures
        ({
            let (t1, h1) = spec_intern(t, a);
            let (t2, h2) = spec_intern(t1, b);
            (h1 == h2) <==> (a == b)
        }),
{
    let (t1, h1) = spec_intern(t, a);
    let (t2, h2) = spec_intern(t1, b);
    assert(0 <= h1 < t1.len() && t1[h1] == a);
    if !(exists|i: int| 0 <= i < t.len() && t[i] == a) {
        assert forall|i: int, j: int| 0 <= i < j < t1.len() implies t1[i] != t1[j] by {
            if j == t.len() {
                assert(t1[i] == t[i]);
            } else {
                assert(t1[i] == t[i] && t1[j] == t[j]);
            }
        }
    }
    assert(table_inj(t1));
    assert(0 <= h2 < t2.len() && t2[h2] == b);
    assert(t2[h1] == a);
    if a == b {
        if h1 != h2 {
            if h1 < h2 {
                assert(t2[h1] != t2[h2]);
            } else {
                assert(t2[h2] != t2[h1]);
            }
        }
    }
}

} // verus!
