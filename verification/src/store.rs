//! The log store: owns all spans and messages, resolves each incoming
//! record's span-context chain into the span tree by structural
//! deduplication, and appends messages as leaves.

use vstd::prelude::*;

use std::sync::Arc;

use crate::intern::{spec_intern, spec_intern_fields, table_inj, Interner};
use crate::text::str_eq;
use crate::value::{
    fields_clone, fields_eq, fields_eq_spec, ivalue_eq_spec, IString, IValue, JsonMessage, Level,
    MessageId, PseudoMap, RecordModel, SpanId, Value,
};

verus! {

/// One node of the span tree: a display name, the fields shown in its
/// header, its children in arrival order, and the structural index that
/// deduplicates child span contexts.
#[derive(Debug)]
pub struct SpanEntry {
    pub name: IString,
    pub fields: PseudoMap<IString, IValue>,
    pub events: Vec<EventEntry>,
    pub json_subspan_keys: Vec<(PseudoMap<IString, IValue>, SpanId)>,
}

/// A tagged reference to one child of a span, in arrival order.
#[derive(Debug, Clone, Copy, PartialEq, Eq, Structural)]
pub enum EventEntry {
    Span(SpanId),
    Message(MessageId),
}

/// One log event: an optional display timestamp, an optional severity, the
/// emitting target, and the interned fields. The message text itself is the
/// value under the well-known `"message"` key inside `fields`.
#[derive(Debug)]
pub struct MessageEntry {
    pub timestamp: Option<String>,
    pub level: Option<Level>,
    pub fields: PseudoMap<IString, IValue>,
    pub target: IString,
}

/// What to render: the whole tree, or one span's subtree.
#[derive(Debug, Clone, Copy, PartialEq, Eq, Structural)]
pub enum Query {
    All,
    Span(SpanId),
}

/// The aggregate root. Spans and messages are keyed by their identifiers,
/// which are consecutive indexes; the root span is id 0 and is never
/// removed. A single-slot render cache holds the most recent query and its
/// text.
#[derive(Debug)]
pub struct LogsInner {
    pub root_span: SpanId,
    pub spans: Vec<SpanEntry>,
    pub messages: Vec<MessageEntry>,
    pub last_query: Option<Query>,
    pub cur_string: Option<Arc<String>>,
    pub interner: Interner,
    /// The interned key `"message"`.
    pub i_message: IString,
    /// The interned key `"name"`.
    pub i_name: IString,
    /// The interned empty string.
    pub i_empty: IString,
}

/// The mathematical content of a [`SpanEntry`].
#[verifier::ext_equal]
pub struct SpanModel {
    pub name: IString,
    pub fields: Seq<(IString, IValue)>,
    pub events: Seq<EventEntry>,
    pub dedup: Seq<(Seq<(IString, IValue)>, SpanId)>,
}

impl View for SpanEntry {
    type V = SpanModel;

    open spec fn view(&self) -> SpanModel {
        SpanModel {
            name: self.name,
            fields: self.fields@,
            events: self.events@,
            dedup: self.json_subspan_keys@.map_values(
                |p: (PseudoMap<IString, IValue>, SpanId)| (p.0@, p.1),
            ),
        }
    }
}

/// The mathematical content of a [`MessageEntry`].
#[verifier::ext_equal]
pub struct MessageModel {
    pub timestamp: Option<Seq<char>>,
    pub level: Option<Level>,
    pub fields: Seq<(IString, IValue)>,
    pub target: IString,
}

impl View for MessageEntry {
    type V = MessageModel;

    open spec fn view(&self) -> MessageModel {
        MessageModel {
            timestamp: match self.timestamp {
                Some(t) => Some(t@),
                None => None,
            },
            level: self.level,
            fields: self.fields@,
            target: self.target,
        }
    }
}

/// The mathematical content of the whole store.
#[verifier::ext_equal]
pub struct StoreModel {
    pub root_span: SpanId,
    pub spans: Seq<SpanModel>,
    pub messages: Seq<MessageModel>,
    pub table: Seq<Seq<char>>,
    pub last_query: Option<Query>,
    pub cur_string: Option<Seq<char>>,
    pub i_message: IString,
    pub i_name: IString,
    pub i_empty: IString,
}

impl View for LogsInner {
    type V = StoreModel;

    open spec fn view(&self) -> StoreModel {
        StoreModel {
            root_span: self.root_span,
            spans: self.spans@.map_values(|s: SpanEntry| s@),
            messages: self.messages@.map_values(|m: MessageEntry| m@),
            table: self.interner.table(),
            last_query: self.last_query,
            cur_string: match self.cur_string {
                Some(ref s) => Some(s@),
                None => None,
            },
            i_message: self.i_message,
            i_name: self.i_name,
            i_empty: self.i_empty,
        }
    }
}

/// An event reference is well formed under span `k`: a child span has a
/// strictly larger id (the tree grows forward, so children are always newer
/// than their parent), and a message id is in range.
pub open spec fn event_wf(m: StoreModel, k: int, e: EventEntry) -> bool {
    match e {
        EventEntry::Span(c) => k < c < m.spans.len(),
        EventEntry::Message(mid) => mid < m.messages.len(),
    }
}

/// Every handle mentioned by a field list is valid in the table.
pub open spec fn fields_valid(m: StoreModel, f: Seq<(IString, IValue)>) -> bool {
    forall|i: int|
        0 <= i < f.len() ==> {
            &&& (#[trigger] f[i]).0.id < m.table.len()
            &&& (f[i].1 matches IValue::S(h) ==> h.id < m.table.len())
        }
}

pub open spec fn span_wf(m: StoreModel, k: int) -> bool {
    let s = m.spans[k];
    &&& s.name.id < m.table.len()
    &&& fields_valid(m, s.fields)
    &&& forall|i: int| 0 <= i < s.events.len() ==> event_wf(m, k, #[trigger] s.events[i])
    &&& forall|i: int| 0 <= i < s.dedup.len() ==> k < (#[trigger] s.dedup[i]).1 < m.spans.len()
    &&& forall|i: int, j: int|
        0 <= i < j < s.dedup.len() ==> !fields_eq_spec(s.dedup[i].0, s.dedup[j].0)
}

pub open spec fn msg_wf(m: StoreModel, k: int) -> bool {
    let g = m.messages[k];
    &&& g.target.id < m.table.len()
    &&& fields_valid(m, g.fields)
}

/// The store invariant: the interner table is injective, the root exists at
/// id 0, every reference is in range, children are newer than their parent,
/// each span's dedup index has pairwise distinct keys, and the three
/// well-known keys are interned with their fixed contents.
pub open spec fn store_wf(m: StoreModel) -> bool {
    &&& table_inj(m.table)
    &&& m.root_span == 0
    &&& 1 <= m.spans.len()
    &&& forall|k: int| 0 <= k < m.spans.len() ==> span_wf(m, k)
    &&& forall|k: int| 0 <= k < m.messages.len() ==> msg_wf(m, k)
    &&& m.i_message.id < m.table.len() && m.table[m.i_message.id as int] == "message"@
    &&& m.i_name.id < m.table.len() && m.table[m.i_name.id as int] == "name"@
    &&& m.i_empty.id < m.table.len() && m.table[m.i_empty.id as int] == ""@
}

/// First match in a dedup index, by structural equality of the full
/// ordered field list.
pub open spec fn spec_lookup(d: Seq<(Seq<(IString, IValue)>, SpanId)>, key: Seq<(IString, IValue)>)
    -> Option<SpanId>
    decreases d.len(),
{
    if d.len() == 0 {
        None
    } else if fields_eq_spec(d[0].0, key) {
        Some(d[0].1)
    } else {
        spec_lookup(d.drop_first(), key)
    }
}

pub proof fn lemma_lookup_none(
    d: Seq<(Seq<(IString, IValue)>, SpanId)>,
    key: Seq<(IString, IValue)>,
)
    ensures
        (spec_lookup(d, key) is None) <==> (forall|i: int|
            0 <= i < d.len() ==> !fields_eq_spec((#[trigger] d[i]).0, key)),
    decreases d.len(),
{
    if d.len() > 0 {
        lemma_lookup_none(d.drop_first(), key);
        if spec_lookup(d, key) is None {
            assert forall|i: int| 0 <= i < d.len() implies !fields_eq_spec(
                (#[trigger] d[i]).0,
                key,
            ) by {
                if i > 0 {
                    assert(d.drop_first()[i - 1] == d[i]);
                }
            }
        } else {
            if !fields_eq_spec(d[0].0, key) {
                assert(spec_lookup(d.drop_first(), key) is Some);
                let i = choose|i: int|
                    0 <= i < d.drop_first().len() && fields_eq_spec(
                        (#[trigger] d.drop_first()[i]).0,
                        key,
                    );
                assert(d[i + 1] == d.drop_first()[i]);
            }
        }
    }
}

pub proof fn lemma_lookup_some(
    d: Seq<(Seq<(IString, IValue)>, SpanId)>,
    key: Seq<(IString, IValue)>,
    id: SpanId,
)
    requires
        spec_lookup(d, key) == Some(id),
    ensures
        exists|i: int| 0 <= i < d.len() && (#[trigger] d[i]).1 == id && fields_eq_spec(d[i].0, key),
    decreases d.len(),
{
    if d.len() > 0 {
        if fields_eq_spec(d[0].0, key) {
            assert(0 <= 0 < d.len() && d[0].1 == id && fields_eq_spec(d[0].0, key));
        } else {
            lemma_lookup_some(d.drop_first(), key, id);
            let i = choose|i: int|
                0 <= i < d.drop_first().len() && (#[trigger] d.drop_first()[i]).1 == id
                    && fields_eq_spec(d.drop_first()[i].0, key);
            assert(d[i + 1] == d.drop_first()[i]);
        }
    }
}

/// The span-naming rule. A context whose final pair is keyed by the
/// well-known `"name"` key and holds a non-empty string names the span;
/// that pair is then removed from the stored fields so it is not displayed
/// twice. Any other shape (including a `"name"` pair that is not last, an
/// artifact of how some emitters serialize span names) leaves the span
/// unnamed and the fields untouched.
pub open spec fn spec_name_split(
    ctx: Seq<(IString, IValue)>,
    i_name: IString,
    i_empty: IString,
) -> (IString, Seq<(IString, IValue)>) {
    let name = if ctx.len() > 0 {
        match ctx.last() {
            (k, IValue::S(h)) => if k == i_name {
                h
            } else {
                i_empty
            },
            _ => i_empty,
        }
    } else {
        i_empty
    };
    if name != i_empty {
        (name, ctx.drop_last())
    } else {
        (i_empty, ctx)
    }
}

/// One resolution step for one (already interned) span context under span
/// `cur`: a hit in `cur`'s dedup index moves to the mapped child; a miss
/// allocates the next span id, records the context in the dedup index,
/// appends the child event, and inserts the new span.
pub open spec fn spec_resolve_step(m: StoreModel, cur: SpanId, ctx: Seq<(IString, IValue)>) -> (
    StoreModel,
    SpanId,
) {
    match spec_lookup(m.spans[cur as int].dedup, ctx) {
        Some(id) => (m, id),
        None => {
            let new_id = m.spans.len() as SpanId;
            let (name, fields) = spec_name_split(ctx, m.i_name, m.i_empty);
            let parent = m.spans[cur as int];
            let parent2 = SpanModel {
                events: parent.events.push(EventEntry::Span(new_id)),
                dedup: parent.dedup.push((ctx, new_id)),
                ..parent
            };
            let new_span = SpanModel { name, fields, events: Seq::empty(), dedup: Seq::empty() };
            (
                StoreModel { spans: m.spans.update(cur as int, parent2).push(new_span), ..m },
                new_id,
            )
        },
    }
}

/// Resolving the whole context chain from `cur`, interleaving interning
/// (which extends the table) with resolution, exactly as ingestion does.
pub open spec fn spec_ingest_chain(
    m: StoreModel,
    cur: SpanId,
    ctxs: Seq<Seq<(String, Value)>>,
    i: int,
) -> (StoreModel, SpanId)
    decreases ctxs.len() - i,
{
    if i < 0 || i >= ctxs.len() {
        (m, cur)
    } else {
        let (t1, ictx) = spec_intern_fields(m.table, ctxs[i]);
        let m1 = StoreModel { table: t1, ..m };
        let (m2, c2) = spec_resolve_step(m1, cur, ictx);
        spec_ingest_chain(m2, c2, ctxs, i + 1)
    }
}

/// Appending one message as a leaf of span `cur`.
pub open spec fn spec_append_message(m: StoreModel, cur: SpanId, msg: MessageModel) -> StoreModel {
    let id = m.messages.len() as MessageId;
    let sp = m.spans[cur as int];
    StoreModel {
        spans: m.spans.update(
            cur as int,
            SpanModel { events: sp.events.push(EventEntry::Message(id)), ..sp },
        ),
        messages: m.messages.push(msg),
        ..m
    }
}

/// The severity named by a level string; anything unrecognized is absent.
pub open spec fn spec_level(s: Seq<char>) -> Option<Level> {
    if s == "ERROR"@ {
        Some(Level::Error)
    } else if s == "WARN"@ {
        Some(Level::Warn)
    } else if s == "INFO"@ {
        Some(Level::Info)
    } else if s == "DEBUG"@ {
        Some(Level::Debug)
    } else if s == "TRACE"@ {
        Some(Level::Trace)
    } else {
        None
    }
}

/// Ingesting one parsed record: resolve the span chain from the root, then
/// intern the target and fields and append the message under the resolved
/// leaf. `ts` is the display text of the record's timestamp, which depends
/// on the machine's time zone and is therefore a parameter here.
pub open spec fn spec_ingest_record(m: StoreModel, r: RecordModel, ts: Option<Seq<char>>)
    -> StoreModel {
    let (m1, cur) = spec_ingest_chain(m, m.root_span, r.spans, 0);
    let (t2, ht) = spec_intern(m1.table, r.target);
    let (t3, ifields) = spec_intern_fields(t2, r.fields);
    let msg = MessageModel {
        timestamp: ts,
        level: spec_level(r.level),
        fields: ifields,
        target: IString { id: ht as usize },
    };
    spec_append_message(StoreModel { table: t3, ..m1 }, cur, msg)
}

/// Extending the table (keeping existing entries in place) preserves the
/// store invariant: every validity bound is monotone in the table length.
pub proof fn lemma_wf_table_extend(m: StoreModel, t: Seq<Seq<char>>)
    requires
        store_wf(m),
        table_inj(t),
        m.table.len() <= t.len(),
        forall|h: IString| h.id < m.table.len() ==> t[h.id as int] == m.table[h.id as int],
    ensures
        store_wf(StoreModel { table: t, ..m }),
{
    let m2 = StoreModel { table: t, ..m };
    assert forall|k: int| 0 <= k < m2.spans.len() implies span_wf(m2, k) by {
        assert(span_wf(m, k));
        assert forall|i: int| 0 <= i < m2.spans[k].events.len() implies event_wf(
            m2,
            k,
            #[trigger] m2.spans[k].events[i],
        ) by {
            assert(event_wf(m, k, m.spans[k].events[i]));
        }
    }
    assert forall|k: int| 0 <= k < m2.messages.len() implies msg_wf(m2, k) by {
        assert(msg_wf(m, k));
    }
}

/// Every field list equals itself under structural equality.
pub proof fn lemma_fields_eq_refl(key: Seq<(IString, IValue)>)
    ensures
        fields_eq_spec(key, key),
{
    assert forall|i: int| 0 <= i < key.len() implies key[i].0 == key[i].0 && ivalue_eq_spec(
        key[i].1,
        key[i].1,
    ) by {
        match key[i].1 {
            IValue::S(x) => {},
            IValue::B(x) => {},
            IValue::I(x) => {},
            IValue::F(x) => {},
        }
    }
}

/// Appending a fresh key to a dedup index that holds no structurally equal
/// key makes later lookups of that key hit exactly the appended entry.
pub proof fn lemma_lookup_push_hit(
    d: Seq<(Seq<(IString, IValue)>, SpanId)>,
    key: Seq<(IString, IValue)>,
    id: SpanId,
)
    requires
        forall|i: int| 0 <= i < d.len() ==> !fields_eq_spec((#[trigger] d[i]).0, key),
    ensures
        spec_lookup(d.push((key, id)), key) == Some(id),
    decreases d.len(),
{
    lemma_fields_eq_refl(key);
    if d.len() == 0 {
        assert(d.push((key, id))[0] == (key, id));
    } else {
        assert(d.push((key, id))[0] == d[0]);
        assert forall|i: int| 0 <= i < d.drop_first().len() implies !fields_eq_spec(
            (#[trigger] d.drop_first()[i]).0,
            key,
        ) by {
            assert(d.drop_first()[i] == d[i + 1]);
        }
        lemma_lookup_push_hit(d.drop_first(), key, id);
        assert(d.push((key, id)).drop_first() =~= d.drop_first().push((key, id)));
    }
}

/// Dedup idempotence, one resolution step at a time: resolving a context
/// under a span and then resolving the same context under the same span
/// again finds the span created (or found) the first time — the store does
/// not change and no second span is created.
pub proof fn lemma_resolve_step_idempotent(m: StoreModel, cur: SpanId, ctx: Seq<(IString, IValue)>)
    requires
        store_wf(m),
        cur < m.spans.len(),
    ensures
        ({
            let (m1, id) = spec_resolve_step(m, cur, ctx);
            spec_resolve_step(m1, cur, ctx) == (m1, id)
        }),
{
    let (m1, id) = spec_resolve_step(m, cur, ctx);
    match spec_lookup(m.spans[cur as int].dedup, ctx) {
        Some(_) => {},
        None => {
            lemma_lookup_none(m.spans[cur as int].dedup, ctx);
            assert(m1.spans[cur as int].dedup == m.spans[cur as int].dedup.push((ctx, id)));
            lemma_lookup_push_hit(m.spans[cur as int].dedup, ctx, id);
            assert(spec_lookup(m1.spans[cur as int].dedup, ctx) == Some(id));
        },
    }
}

/// The part of the invariant the deduplication argument rests on: an
/// injective table, and dedup indexes with in-range, forward-pointing
/// targets and pairwise distinct keys.
pub open spec fn dedup_span_wf(m: StoreModel, k: int) -> bool {
    let s = m.spans[k];
    &&& (forall|i: int| 0 <= i < s.dedup.len() ==> k < (#[trigger] s.dedup[i]).1 < m.spans.len())
    &&& (forall|i: int, j: int|
        0 <= i < j < s.dedup.len() ==> !fields_eq_spec(s.dedup[i].0, s.dedup[j].0))
}

pub open spec fn dedup_wf(m: StoreModel) -> bool {
    &&& table_inj(m.table)
    &&& forall|k: int| 0 <= k < m.spans.len() ==> dedup_span_wf(m, k)
}

pub proof fn lemma_store_wf_dedup_wf(m: StoreModel)
    requires
        store_wf(m),
    ensures
        dedup_wf(m),
{
    assert forall|k: int| 0 <= k < m.spans.len() implies dedup_span_wf(m, k) by {
        assert(span_wf(m, k));
    }
}

/// Facts about one resolution step: the reduced invariant is preserved, the
/// result is a strictly newer span, spans below the parent are untouched,
/// and — the crux — looking the same context up right after the step hits
/// the very span the step returned.
pub proof fn lemma_resolve_step_props(m: StoreModel, cur: SpanId, ctx: Seq<(IString, IValue)>)
    requires
        dedup_wf(m),
        cur < m.spans.len(),
        m.spans.len() < usize::MAX,
    ensures
        ({
            let (m2, c2) = spec_resolve_step(m, cur, ctx);
            &&& dedup_wf(m2)
            &&& cur < c2 < m2.spans.len()
            &&& m.spans.len() <= m2.spans.len()
            &&& m2.table == m.table
            &&& m2.messages == m.messages
            &&& m2.root_span == m.root_span
            &&& m2.i_message == m.i_message
            &&& m2.i_name == m.i_name
            &&& m2.i_empty == m.i_empty
            &&& m2.last_query == m.last_query
            &&& m2.cur_string == m.cur_string
            &&& (forall|k: int| 0 <= k < cur ==> m2.spans[k] == m.spans[k])
            &&& (forall|k: int|
                0 <= k < m.spans.len() && k != cur ==> (#[trigger] m2.spans[k]).dedup
                    == m.spans[k].dedup)
            &&& (forall|k: int|
                0 <= k < m.spans.len() ==> (#[trigger] m2.spans[k]).name == m.spans[k].name
                    && m2.spans[k].fields == m.spans[k].fields)
            &&& spec_lookup(m2.spans[cur as int].dedup, ctx) == Some(c2)
        }),
{
    let (m2, c2) = spec_resolve_step(m, cur, ctx);
    assert(dedup_span_wf(m, cur as int));
    match spec_lookup(m.spans[cur as int].dedup, ctx) {
        Some(id) => {
            lemma_lookup_some(m.spans[cur as int].dedup, ctx, id);
        },
        None => {
            lemma_lookup_none(m.spans[cur as int].dedup, ctx);
            lemma_lookup_push_hit(m.spans[cur as int].dedup, ctx, c2);
            assert forall|k: int| 0 <= k < m2.spans.len() implies dedup_span_wf(m2, k) by {
                let d2 = m2.spans[k].dedup;
                if k == cur as int {
                    let d0 = m.spans[cur as int].dedup;
                    assert(d2 == d0.push((ctx, c2)));
                    assert forall|i: int| 0 <= i < d2.len() implies k < (#[trigger] d2[i]).1
                        < m2.spans.len() by {
                        if i < d0.len() {
                            assert(d2[i] == d0[i]);
                            assert(k < d0[i].1 < m.spans.len());
                        } else {
                            assert(d2[i] == (ctx, c2));
                        }
                    }
                    assert forall|i: int, j: int| 0 <= i < j < d2.len() implies !fields_eq_spec(
                        d2[i].0,
                        d2[j].0,
                    ) by {
                        if j < d0.len() {
                            assert(d2[i] == d0[i] && d2[j] == d0[j]);
                        } else {
                            assert(d2[i] == d0[i]);
                            assert(d2[j].0 == ctx);
                            assert(!fields_eq_spec(d0[i].0, ctx));
                        }
                    }
                } else if k == m.spans.len() {
                    assert(d2 =~= Seq::<(Seq<(IString, IValue)>, SpanId)>::empty());
                } else {
                    assert(dedup_span_wf(m, k));
                    assert(m2.spans[k] == m.spans[k]);
                    assert forall|i: int| 0 <= i < d2.len() implies k < (#[trigger] d2[i]).1
                        < m2.spans.len() by {
                        assert(k < m.spans[k].dedup[i].1 < m.spans.len());
                    }
                }
            }
        },
    }
}

/// Twice the number of raw pairs still to intern from context `i` on: an
/// upper bound on how much the table can still grow during resolution.
pub open spec fn chain_weight(ctxs: Seq<Seq<(String, Value)>>, i: int) -> nat
    decreases ctxs.len() - i,
{
    if i < 0 || i >= ctxs.len() {
        0
    } else {
        2 * ctxs[i].len() + chain_weight(ctxs, i + 1)
    }
}

/// Facts about resolving a whole chain: the reduced invariant is preserved,
/// the table only grows in place (within the weight bound), messages and
/// the spans below the starting point are untouched.
pub proof fn lemma_chain_props(m: StoreModel, cur: SpanId, ctxs: Seq<Seq<(String, Value)>>, i: int)
    requires
        dedup_wf(m),
        cur < m.spans.len(),
        m.table.len() + chain_weight(ctxs, i) <= usize::MAX,
        m.spans.len() + ctxs.len() - i <= usize::MAX,
    ensures
        ({
            let (ma, ca) = spec_ingest_chain(m, cur, ctxs, i);
            &&& dedup_wf(ma)
            &&& cur <= ca < ma.spans.len()
            &&& m.spans.len() <= ma.spans.len() <= m.spans.len() + (if i < ctxs.len() {
                ctxs.len() - i
            } else {
                0
            })
            &&& m.table.len() <= ma.table.len() <= m.table.len() + chain_weight(ctxs, i)
            &&& (forall|j: int| 0 <= j < m.table.len() ==> ma.table[j] == m.table[j])
            &&& ma.messages == m.messages
            &&& ma.root_span == m.root_span
            &&& ma.i_message == m.i_message
            &&& ma.i_name == m.i_name
            &&& ma.i_empty == m.i_empty
            &&& ma.last_query == m.last_query
            &&& ma.cur_string == m.cur_string
            &&& (forall|k: int| 0 <= k < cur ==> ma.spans[k] == m.spans[k])
            &&& (forall|k: int|
                0 <= k < m.spans.len() ==> (#[trigger] ma.spans[k]).name == m.spans[k].name
                    && ma.spans[k].fields == m.spans[k].fields)
        }),
    decreases ctxs.len() - i,
{
    if !(i < 0 || i >= ctxs.len()) {
        crate::intern::lemma_spec_intern_fields_props(m.table, ctxs[i]);
        let (t1, ictx) = spec_intern_fields(m.table, ctxs[i]);
        let m1 = StoreModel { table: t1, ..m };
        assert forall|k: int| 0 <= k < m1.spans.len() implies dedup_span_wf(m1, k) by {
            assert(dedup_span_wf(m, k));
        }
        lemma_resolve_step_props(m1, cur, ictx);
        let (m2, c2) = spec_resolve_step(m1, cur, ictx);
        lemma_chain_props(m2, c2, ctxs, i + 1);
    }
}

/// Re-running a whole chain against the store it produced (or any later
/// store that kept every dedup index and the table entries) changes nothing
/// and resolves to the same span: structural deduplication is idempotent.
pub proof fn lemma_chain_rerun(
    m: StoreModel,
    cur: SpanId,
    ctxs: Seq<Seq<(String, Value)>>,
    i: int,
    mz: StoreModel,
)
    requires
        dedup_wf(m),
        cur < m.spans.len(),
        m.table.len() + chain_weight(ctxs, i) <= usize::MAX,
        m.spans.len() + ctxs.len() - i <= usize::MAX,
        table_inj(mz.table),
        ({
            let (ma, ca) = spec_ingest_chain(m, cur, ctxs, i);
            &&& mz.spans.len() == ma.spans.len()
            &&& (forall|k: int|
                0 <= k < ma.spans.len() ==> mz.spans[k].dedup == (#[trigger] ma.spans[k]).dedup)
            &&& ma.table.len() <= mz.table.len()
            &&& (forall|j: int| 0 <= j < ma.table.len() ==> mz.table[j] == ma.table[j])
        }),
    ensures
        spec_ingest_chain(mz, cur, ctxs, i) == (mz, spec_ingest_chain(m, cur, ctxs, i).1),
    decreases ctxs.len() - i,
{
    let (ma, ca) = spec_ingest_chain(m, cur, ctxs, i);
    if !(i < 0 || i >= ctxs.len()) {
        crate::intern::lemma_spec_intern_fields_props(m.table, ctxs[i]);
        let (t1, ictx) = spec_intern_fields(m.table, ctxs[i]);
        let m1 = StoreModel { table: t1, ..m };
        assert forall|k: int| 0 <= k < m1.spans.len() implies dedup_span_wf(m1, k) by {
            assert(dedup_span_wf(m, k));
        }
        lemma_resolve_step_props(m1, cur, ictx);
        let (m2, c2) = spec_resolve_step(m1, cur, ictx);
        lemma_chain_props(m2, c2, ctxs, i + 1);
        // the second pass interns to the same handles on the later table
        assert forall|j: int| 0 <= j < ctxs[i].len() implies crate::intern::interned_pair_ok(
            mz.table,
            ctxs[i][j],
            #[trigger] ictx[j],
        ) by {
            assert(crate::intern::interned_pair_ok(t1, ctxs[i][j], ictx[j]));
            assert(mz.table[ictx[j].0.id as int] == t1[ictx[j].0.id as int]);
            match ctxs[i][j].1 {
                Value::S(sv) => {
                    let h = ictx[j].1->S_0;
                    assert(mz.table[h.id as int] == t1[h.id as int]);
                },
                _ => {},
            }
        }
        crate::intern::lemma_spec_intern_fields_stable(mz.table, ctxs[i], ictx);
        // the second pass hits the span the first pass produced
        assert(ma.spans[cur as int].dedup == m2.spans[cur as int].dedup);
        assert(mz.spans[cur as int].dedup == m2.spans[cur as int].dedup);
        assert(spec_lookup(mz.spans[cur as int].dedup, ictx) == Some(c2));
        assert(spec_resolve_step(mz, cur, ictx) == (mz, c2));
        lemma_chain_rerun(m2, c2, ctxs, i + 1, mz);
    }
}

/// Dedup idempotence: ingesting the same record twice creates spans only
/// the first time. The second ingestion adds exactly one message, and it
/// lands under the same span as the first one did — repeated lines collapse
/// into one tree node per distinct context depth, with one message each.
pub proof fn lemma_ingest_idempotent(
    m: StoreModel,
    r: RecordModel,
    ts1: Option<Seq<char>>,
    ts2: Option<Seq<char>>,
)
    requires
        store_wf(m),
        m.table.len() + chain_weight(r.spans, 0) + 2 * r.fields.len() + 1 <= usize::MAX,
        m.spans.len() + r.spans.len() <= usize::MAX,
        m.messages.len() + 2 <= usize::MAX,
    ensures
        ({
            let m1 = spec_ingest_record(m, r, ts1);
            let m2 = spec_ingest_record(m1, r, ts2);
            &&& m2.spans.len() == m1.spans.len()
            &&& m2.messages.len() == m1.messages.len() + 1
            &&& exists|c: int|
                0 <= c < m1.spans.len() && (#[trigger] m1.spans[c]).events.last()
                    == EventEntry::Message((m1.messages.len() - 1) as MessageId)
                    && m2.spans[c].events == m1.spans[c].events.push(
                    EventEntry::Message(m1.messages.len() as MessageId),
                )
        }),
{
    lemma_store_wf_dedup_wf(m);
    let (ma, ca) = spec_ingest_chain(m, m.root_span, r.spans, 0);
    lemma_chain_props(m, m.root_span, r.spans, 0);
    crate::intern::lemma_spec_intern_props(ma.table, r.target);
    let (t2, ht) = spec_intern(ma.table, r.target);
    crate::intern::lemma_spec_intern_fields_props(t2, r.fields);
    let (t3, ifields) = spec_intern_fields(t2, r.fields);
    let msg1 = MessageModel {
        timestamp: ts1,
        level: spec_level(r.level),
        fields: ifields,
        target: IString { id: ht as usize },
    };
    let mb = StoreModel { table: t3, ..ma };
    let m1 = spec_append_message(mb, ca, msg1);
    assert(m1 == spec_ingest_record(m, r, ts1));
    // the finished store keeps every dedup index and every table entry
    assert(m1.spans.len() == ma.spans.len());
    assert forall|k: int| 0 <= k < ma.spans.len() implies m1.spans[k].dedup == (
    #[trigger] ma.spans[k]).dedup by {}
    assert forall|j: int| 0 <= j < ma.table.len() implies m1.table[j] == ma.table[j] by {}
    lemma_chain_rerun(m, m.root_span, r.spans, 0, m1);
    assert(m1.root_span == m.root_span);
    assert(spec_ingest_chain(m1, m1.root_span, r.spans, 0) == (m1, ca));
    // re-interning the target and fields finds the same handles
    assert(m1.table == t3);
    assert(m1.table[ht] == r.target);
    crate::intern::lemma_intern_found(m1.table, r.target, ht);
    assert forall|j: int| 0 <= j < r.fields.len() implies crate::intern::interned_pair_ok(
        m1.table,
        r.fields[j],
        #[trigger] ifields[j],
    ) by {}
    crate::intern::lemma_spec_intern_fields_stable(m1.table, r.fields, ifields);
    let msg2 = MessageModel {
        timestamp: ts2,
        level: spec_level(r.level),
        fields: ifields,
        target: IString { id: ht as usize },
    };
    let m2 = spec_append_message(m1, ca, msg2);
    assert(m2 == spec_ingest_record(m1, r, ts2));
    // both messages landed under the same span, in order
    assert(mb.messages == m.messages);
    assert(m1.spans[ca as int].events == mb.spans[ca as int].events.push(
        EventEntry::Message(mb.messages.len() as MessageId),
    ));
    assert(0 <= ca < m1.spans.len() && m1.spans[ca as int].events.last() == EventEntry::Message(
        (m1.messages.len() - 1) as MessageId,
    ) && m2.spans[ca as int].events == m1.spans[ca as int].events.push(
        EventEntry::Message(m1.messages.len() as MessageId),
    ));
}

/// The naming rule, spelled out: a context whose final pair is the
/// well-known `"name"` key with a non-empty string value names the span
/// after that value, and the stored fields are the context without that
/// final pair — every earlier pair, a duplicate `"name"` included, stays in
/// its place and in order.
pub proof fn lemma_name_split_trailing_name(
    ctx: Seq<(IString, IValue)>,
    i_name: IString,
    i_empty: IString,
    h: IString,
)
    requires
        ctx.len() > 0,
        ctx.last() == (i_name, IValue::S(h)),
        h != i_empty,
    ensures
        spec_name_split(ctx, i_name, i_empty) == (h, ctx.drop_last()),
        forall|i: int| 0 <= i < ctx.len() - 1 ==> ctx.drop_last()[i] == ctx[i],
{
}

/// The naming rule, the other way: a context whose final pair is not a
/// non-empty string under the `"name"` key leaves the span unnamed and the
/// stored fields untouched.
pub proof fn lemma_name_split_no_trailing_name(
    ctx: Seq<(IString, IValue)>,
    i_name: IString,
    i_empty: IString,
)
    requires
        ctx.len() == 0 || !(ctx.last().0 == i_name && (ctx.last().1 matches IValue::S(h) && h
            != i_empty)),
    ensures
        spec_name_split(ctx, i_name, i_empty) == (i_empty, ctx),
{
}

/// Ingestion never rewrites an existing span's identity: every span that
/// existed before keeps its name and its header fields. In particular the
/// root entry is never renamed, whatever is ingested.
pub proof fn lemma_ingest_preserves_spans(m: StoreModel, r: RecordModel, ts: Option<Seq<char>>)
    requires
        store_wf(m),
        m.table.len() + chain_weight(r.spans, 0) + 2 * r.fields.len() + 1 <= usize::MAX,
        m.spans.len() + r.spans.len() <= usize::MAX,
    ensures
        ({
            let m1 = spec_ingest_record(m, r, ts);
            &&& m.spans.len() <= m1.spans.len()
            &&& (forall|k: int|
                0 <= k < m.spans.len() ==> (#[trigger] m1.spans[k]).name == m.spans[k].name
                    && m1.spans[k].fields == m.spans[k].fields)
        }),
{
    lemma_store_wf_dedup_wf(m);
    let (ma, ca) = spec_ingest_chain(m, m.root_span, r.spans, 0);
    lemma_chain_props(m, m.root_span, r.spans, 0);
    let m1 = spec_ingest_record(m, r, ts);
    assert forall|k: int| 0 <= k < m.spans.len() implies (#[trigger] m1.spans[k]).name
        == m.spans[k].name && m1.spans[k].fields == m.spans[k].fields by {
        assert(ma.spans[k].name == m.spans[k].name && ma.spans[k].fields == m.spans[k].fields);
    }
}

/// The invariant does not depend on the render cache.
pub proof fn lemma_wf_cache_set(m: StoreModel, lq: Option<Query>, cs: Option<Seq<char>>)
    requires
        store_wf(m),
    ensures
        store_wf(StoreModel { last_query: lq, cur_string: cs, ..m }),
{
    let m2 = StoreModel { last_query: lq, cur_string: cs, ..m };
    assert forall|k: int| 0 <= k < m2.spans.len() implies span_wf(m2, k) by {
        assert(span_wf(m, k));
        assert forall|i: int| 0 <= i < m2.spans[k].events.len() implies event_wf(
            m2,
            k,
            #[trigger] m2.spans[k].events[i],
        ) by {
            assert(event_wf(m, k, m.spans[k].events[i]));
        }
    }
    assert forall|k: int| 0 <= k < m2.messages.len() implies msg_wf(m2, k) by {
        assert(msg_wf(m, k));
    }
}

/// First match in a span's dedup index.
pub fn lookup_subspan(
    entries: &Vec<(PseudoMap<IString, IValue>, SpanId)>,
    key: &PseudoMap<IString, IValue>,
) -> (r: Option<SpanId>)
    ensures
        r == spec_lookup(
            entries@.map_values(|p: (PseudoMap<IString, IValue>, SpanId)| (p.0@, p.1)),
            key@,
        ),
{
    let ghost d = entries@.map_values(|p: (PseudoMap<IString, IValue>, SpanId)| (p.0@, p.1));
    proof {
        assert(d.skip(0) =~= d);
    }
    let n = entries.len();
    let mut i: usize = 0;
    while i < n
        invariant
            n == entries@.len(),
            i <= n,
            d == entries@.map_values(|p: (PseudoMap<IString, IValue>, SpanId)| (p.0@, p.1)),
            d.len() == n,
            spec_lookup(d, key@) == spec_lookup(d.skip(i as int), key@),
        decreases n - i,
    {
        proof {
            assert(d.skip(i as int)[0] == d[i as int]);
            assert(d.skip(i as int).drop_first() =~= d.skip(i as int + 1));
        }
        let pair = &entries[i];
        if fields_eq(&pair.0, key) {
            return Some(pair.1);
        }
        i += 1;
    }
    proof {
        assert(d.skip(n as int) =~= Seq::<(Seq<(IString, IValue)>, SpanId)>::empty());
    }
    None
}

/// The severity named by a level string.
pub fn parse_level(s: &str) -> (r: Option<Level>)
    ensures
        r == spec_level(s@),
{
    if str_eq(s, "ERROR") {
        Some(Level::Error)
    } else if str_eq(s, "WARN") {
        Some(Level::Warn)
    } else if str_eq(s, "INFO") {
        Some(Level::Info)
    } else if str_eq(s, "DEBUG") {
        Some(Level::Debug)
    } else if str_eq(s, "TRACE") {
        Some(Level::Trace)
    } else {
        None
    }
}

/// Relies on chrono: parsing the raw timestamp as a `DateTime` in the local
/// time zone, and RFC 3339 formatting with millisecond precision. Both the
/// acceptance and the resulting text depend on the machine's time zone, so
/// nothing is assumed of the outcome.
#[verifier::external_body]
fn timestamp_display(raw: &str) -> (r: Option<String>) {
    raw.parse::<chrono::DateTime<chrono::Local>>().ok().map(
        |t| t.to_rfc3339_opts(chrono::SecondsFormat::Millis, true),
    )
}

impl Default for LogsInner {
    fn default() -> (r: Self)
        ensures
            r.wf(),
            r@.spans.len() == 1,
            r@.messages.len() == 0,
    {
        LogsInner::new()
    }
}

impl LogsInner {
    /// The store invariant, including the interner's own.
    pub open spec fn wf(self) -> bool {
        &&& store_wf(self@)
        &&& self.interner.wf()
    }

    /// An empty store: one root span with the fixed sentinel name, no
    /// messages, the three well-known keys interned, and a cold cache.
    pub fn new() -> (s: Self)
        ensures
            s.wf(),
            s@.spans.len() == 1,
            s@.spans[0].events.len() == 0,
            s@.spans[0].dedup.len() == 0,
            s@.spans[0].fields.len() == 0,
            s@.table[s@.spans[0].name.id as int] == "<all spans>"@,
            s@.messages.len() == 0,
            s@.last_query is None,
            s@.cur_string is None,
    {
        let mut interner = Interner::new();
        let root_name = interner.intern_str("<all spans>");
        let i_message = interner.intern_str("message");
        let i_name = interner.intern_str("name");
        let i_empty = interner.intern_str("");
        let root = SpanEntry {
            name: root_name,
            fields: PseudoMap::new(),
            events: Vec::new(),
            json_subspan_keys: Vec::new(),
        };
        let mut spans: Vec<SpanEntry> = Vec::new();
        spans.push(root);
        let s = LogsInner {
            root_span: 0,
            spans,
            messages: Vec::new(),
            last_query: None,
            cur_string: None,
            interner,
            i_message,
            i_name,
            i_empty,
        };
        proof {
            assert(s@.spans =~= seq![s.spans@[0]@]);
            assert(s@.messages =~= Seq::<MessageModel>::empty());
            assert(span_wf(s@, 0));
        }
        s
    }

    /// Resets the store to its initialized-but-empty state: all spans and
    /// messages are wiped, the root entry is re-inserted with no children
    /// and an empty dedup index, and the render cache is dropped. The
    /// interner (and so every existing handle) survives.
    pub fn clear(&mut self)
        requires
            old(self).wf(),
        ensures
            final(self).wf(),
            final(self)@.spans.len() == 1,
            final(self)@.spans[0].name == old(self)@.spans[0].name,
            final(self)@.spans[0].fields == old(self)@.spans[0].fields,
            final(self)@.spans[0].events.len() == 0,
            final(self)@.spans[0].dedup.len() == 0,
            final(self)@.messages.len() == 0,
            final(self)@.cur_string is None,
            final(self)@.last_query == old(self)@.last_query,
            final(self)@.table == old(self)@.table,
            final(self)@.root_span == 0,
            final(self)@.i_message == old(self)@.i_message,
            final(self)@.i_name == old(self)@.i_name,
            final(self)@.i_empty == old(self)@.i_empty,
    {
        let mut root = self.spans.remove(0);
        root.events = Vec::new();
        root.json_subspan_keys = Vec::new();
        self.spans = Vec::new();
        self.spans.push(root);
        self.messages = Vec::new();
        self.cur_string = None;
        proof {
            assert(self@.spans =~= seq![self.spans@[0]@]);
            assert(self@.messages =~= Seq::<MessageModel>::empty());
            assert(span_wf(old(self)@, 0));
            assert(self@.spans[0].name == old(self)@.spans[0].name);
            assert(self@.spans[0].fields == old(self)@.spans[0].fields);
            assert(fields_valid(self@, self@.spans[0].fields));
            assert(span_wf(self@, 0));
        }
    }

    /// Ingests one parsed record: the span-context chain is resolved from
    /// the root, creating one deduplicated span per context not seen before
    /// at its nesting point, and the message is appended as a leaf of the
    /// resolved span. The render cache is deliberately left as it is.
    ///
    /// The timestamp's display text depends on the machine's time zone, so
    /// the contract quantifies over it; everything else about the new state
    /// is pinned exactly by [`spec_ingest_record`].
    pub fn add_record(&mut self, rec: JsonMessage)
        requires
            old(self).wf(),
        ensures
            final(self).wf(),
            exists|ts: Option<Seq<char>>|
                final(self)@ == spec_ingest_record(old(self)@, rec@, ts),
    {
        let ghost m0 = self@;
        let ghost rm = rec@;
        let JsonMessage { timestamp, level, fields, target, spans } = rec;
        let mut ctxs = spans;
        let mut cur: SpanId = self.root_span;
        let n = ctxs.len();
        let mut i: usize = 0;
        proof {
            assert(ctxs@.map_values(|p: PseudoMap<String, Value>| p@) =~= rm.spans.skip(0));
        }
        while i < n
            invariant
                self.wf(),
                i <= n,
                n == rm.spans.len(),
                ctxs@.len() == n - i,
                ctxs@.map_values(|p: PseudoMap<String, Value>| p@) == rm.spans.skip(i as int),
                cur < self@.spans.len(),
                m0.root_span == 0,
                self@.root_span == 0,
                self@.last_query == m0.last_query,
                self@.cur_string == m0.cur_string,
                self@.i_message == m0.i_message,
                self@.i_name == m0.i_name,
                self@.i_empty == m0.i_empty,
                spec_ingest_chain(m0, m0.root_span, rm.spans, 0) == spec_ingest_chain(
                    self@,
                    cur,
                    rm.spans,
                    i as int,
                ),
            decreases n - i,
        {
            let ghost m_pre = self@;
            let ghost prev = ctxs@;
            let ctx_raw = ctxs.remove(0);
            proof {
                assert(prev.map_values(|p: PseudoMap<String, Value>| p@)[0] == prev[0]@);
                assert(rm.spans.skip(i as int)[0] == rm.spans[i as int]);
                assert(ctx_raw@ == rm.spans[i as int]);
                assert forall|j: int|
                    0 <= j < ctxs@.len() implies ctxs@.map_values(
                    |p: PseudoMap<String, Value>| p@,
                )[j] == #[trigger] rm.spans.skip(i as int + 1)[j] by {
                    assert(ctxs@[j] == prev[j + 1]);
                    assert(prev.map_values(|p: PseudoMap<String, Value>| p@)[j + 1] == prev[j
                        + 1]@);
                    assert(rm.spans.skip(i as int)[j + 1] == rm.spans[i as int + 1 + j]);
                }
                assert(ctxs@.map_values(|p: PseudoMap<String, Value>| p@) =~= rm.spans.skip(
                    i as int + 1,
                ));
            }
            let ictx = self.interner.intern_pseudo(ctx_raw);
            let ghost m1 = StoreModel { table: self.interner.table(), ..m_pre };
            proof {
                assert(self@ =~~= m1);
                assert forall|h: IString|
                    h.id < m_pre.table.len() implies self.interner.table()[h.id as int]
                    == m_pre.table[h.id as int] by {
                    assert(self.interner.str_of(h) == self.interner.table()[h.id as int]);
                }
                lemma_wf_table_extend(m_pre, self.interner.table());
                assert(store_wf(m1));
            }
            let hit = lookup_subspan(&self.spans[cur].json_subspan_keys, &ictx);
            proof {
                assert(self.spans@[cur as int]@.dedup == m1.spans[cur as int].dedup);
                assert(hit == spec_lookup(m1.spans[cur as int].dedup, ictx@));
            }
            match hit {
                Some(id) => {
                    proof {
                        lemma_lookup_some(m1.spans[cur as int].dedup, ictx@, id);
                        assert(span_wf(m1, cur as int));
                        assert(cur < id < m1.spans.len());
                        assert(spec_resolve_step(m1, cur, ictx@) == (m1, id));
                        assert(spec_ingest_chain(m_pre, cur, rm.spans, i as int)
                            == spec_ingest_chain(m1, id, rm.spans, i as int + 1));
                    }
                    cur = id;
                },
                None => {
                    let ghost d0 = m1.spans[cur as int].dedup;
                    let ghost sv0 = self.spans@;
                    let new_id: SpanId = self.spans.len();
                    let mut parent = self.spans.remove(cur);
                    // The naming rule inspects only the final pair of the
                    // context. Handle comparison stands in for content
                    // comparison: the interner table is injective, so two
                    // valid handles are equal exactly when their contents
                    // are.
                    let name: IString = if ictx.vals.len() > 0 {
                        let last_idx = ictx.vals.len() - 1;
                        match &ictx.vals[last_idx].1 {
                            IValue::S(h) => {
                                if ictx.vals[last_idx].0 == self.i_name {
                                    *h
                                } else {
                                    self.i_empty
                                }
                            },
                            _ => self.i_empty,
                        }
                    } else {
                        self.i_empty
                    };
                    let mut new_fields = fields_clone(&ictx);
                    if name != self.i_empty {
                        let _popped = new_fields.vals.pop();
                    }
                    proof {
                        assert((name, new_fields@) == spec_name_split(
                            ictx@,
                            m1.i_name,
                            m1.i_empty,
                        ));
                    }
                    let new_span = SpanEntry {
                        name,
                        fields: new_fields,
                        events: Vec::new(),
                        json_subspan_keys: Vec::new(),
                    };
                    let ghost ictxv = ictx@;
                    let ghost nv = new_span@;
                    parent.events.push(EventEntry::Span(new_id));
                    parent.json_subspan_keys.push((ictx, new_id));
                    let ghost pv = parent@;
                    self.spans.insert(cur, parent);
                    self.spans.push(new_span);
                    proof {
                        let (m2, c2) = spec_resolve_step(m1, cur, ictxv);
                        assert(new_id == m1.spans.len());
                        assert(c2 == new_id);
                        assert(pv.dedup =~= m1.spans[cur as int].dedup.push((ictxv, new_id)));
                        assert(pv =~~= m2.spans[cur as int]);
                        assert(nv =~~= m2.spans[new_id as int]);
                        assert(self@.spans.len() == m2.spans.len());
                        assert forall|j: int|
                            0 <= j < self@.spans.len() implies self@.spans[j] == m2.spans[j] by {
                            if j < cur as int {
                                assert(self.spans@[j] == sv0[j]);
                                assert(m2.spans[j] == m1.spans[j]);
                            } else if j == cur as int {
                                assert(self.spans@[j]@ == pv);
                            } else if j < self@.spans.len() - 1 {
                                assert(self.spans@[j] == sv0[j]);
                                assert(m2.spans[j] == m1.spans[j]);
                            } else {
                                assert(self.spans@[j]@ == nv);
                            }
                        }
                        assert(self@.spans =~= m2.spans);
                        assert(self@ =~~= m2);
                        // the new state is well formed
                        lemma_lookup_none(d0, ictx@);
                        assert(span_wf(m1, cur as int));
                        assert forall|k: int| 0 <= k < m2.spans.len() implies span_wf(m2, k) by {
                            if k == cur as int {
                                let s1 = m1.spans[k];
                                let s2 = m2.spans[k];
                                assert(s2.events == s1.events.push(EventEntry::Span(new_id)));
                                assert forall|e: int| 0 <= e < s2.events.len() implies event_wf(
                                    m2,
                                    k,
                                    #[trigger] s2.events[e],
                                ) by {
                                    if e < s1.events.len() {
                                        assert(event_wf(m1, k, s1.events[e]));
                                    }
                                }
                            } else if k == new_id as int {
                                assert(fields_valid(m2, m2.spans[k].fields));
                            } else {
                                assert(span_wf(m1, k));
                                assert(m2.spans[k] == m1.spans[k]);
                                assert forall|e: int|
                                    0 <= e < m2.spans[k].events.len() implies event_wf(
                                    m2,
                                    k,
                                    #[trigger] m2.spans[k].events[e],
                                ) by {
                                    assert(event_wf(m1, k, m1.spans[k].events[e]));
                                }
                            }
                        }
                        assert forall|k: int| 0 <= k < m2.messages.len() implies msg_wf(m2, k) by {
                            assert(msg_wf(m1, k));
                        }
                        assert(store_wf(m2));
                        assert(spec_ingest_chain(m_pre, cur, rm.spans, i as int)
                            == spec_ingest_chain(m2, new_id, rm.spans, i as int + 1));
                    }
                    cur = new_id;
                },
            }
            i += 1;
        }
        // The chain is resolved; now build and append the message. Field
        // order matches arrival order: timestamp, level, target, fields.
        let ghost mc = self@;
        proof {
            assert(spec_ingest_chain(mc, cur, rm.spans, n as int) == (mc, cur));
        }
        let ts = timestamp_display(timestamp.as_str());
        let ghost tsv = (match ts {
            Some(ref s) => Some(s@),
            None => None,
        });
        let lv = parse_level(level.as_str());
        let ht = self.interner.intern_str(target.as_str());
        let ghost m_t2 = StoreModel { table: self.interner.table(), ..mc };
        proof {
            assert(self@ =~~= m_t2);
            assert forall|h: IString|
                h.id < mc.table.len() implies self.interner.table()[h.id as int]
                == mc.table[h.id as int] by {
                assert(self.interner.str_of(h) == self.interner.table()[h.id as int]);
            }
            lemma_wf_table_extend(mc, self.interner.table());
        }
        let ifields = self.interner.intern_pseudo(fields);
        let ghost ifv = ifields@;
        let ghost m_t3 = StoreModel { table: self.interner.table(), ..mc };
        proof {
            assert(self@ =~~= m_t3);
            assert forall|h: IString|
                h.id < m_t2.table.len() implies self.interner.table()[h.id as int]
                == m_t2.table[h.id as int] by {
                assert(self.interner.str_of(h) == self.interner.table()[h.id as int]);
            }
            lemma_wf_table_extend(m_t2, self.interner.table());
            assert(store_wf(m_t3));
        }
        let msg = MessageEntry { timestamp: ts, level: lv, fields: ifields, target: ht };
        let new_mid: MessageId = self.messages.len();
        let mut leaf = self.spans.remove(cur);
        leaf.events.push(EventEntry::Message(new_mid));
        self.spans.insert(cur, leaf);
        self.messages.push(msg);
        proof {
            let mm = MessageModel {
                timestamp: tsv,
                level: spec_level(rm.level),
                fields: ifv,
                target: ht,
            };
            let mfin = spec_append_message(m_t3, cur, mm);
            assert(msg@ == mm);
            assert(self@.spans =~= mfin.spans);
            assert(self@.messages =~= mfin.messages);
            assert(self@ =~~= mfin);
            assert(self@ =~~= spec_ingest_record(m0, rm, tsv));
            // well-formedness of the final state
            let mf = self@;
            assert forall|k: int| 0 <= k < mf.spans.len() implies span_wf(mf, k) by {
                assert(span_wf(m_t3, k));
                let s3 = m_t3.spans[k];
                let sf = mf.spans[k];
                assert forall|e: int| 0 <= e < sf.events.len() implies event_wf(
                    mf,
                    k,
                    #[trigger] sf.events[e],
                ) by {
                    if k == cur as int && e == sf.events.len() - 1 {
                    } else {
                        assert(sf.events[e] == s3.events[e]);
                        assert(event_wf(m_t3, k, s3.events[e]));
                    }
                }
            }
            assert forall|k: int| 0 <= k < mf.messages.len() implies msg_wf(mf, k) by {
                if k < m_t3.messages.len() {
                    assert(msg_wf(m_t3, k));
                }
            }
            assert(store_wf(mf));
        }
    }

    /// Ingests one raw line. A line that does not denote a record of the
    /// format is skipped without mutating the store — never fatal.
    pub fn add_json_message(&mut self, input: &str)
        requires
            old(self).wf(),
        ensures
            final(self).wf(),
            (crate::json::sp_message(input@) is None ==> *final(self) == *old(self)),
            (crate::json::sp_message(input@) is Some ==> exists|ts: Option<Seq<char>>, rec: JsonMessage|
                crate::json::sp_message(input@) == Some(crate::json::record_deep(rec@))
                    && final(self)@ == spec_ingest_record(old(self)@, rec@, ts)),
    {
        match crate::json::parse_json_message(input) {
            Some(rec) => {
                let ghost recg = rec;
                self.add_record(rec);
                proof {
                    let ts = choose|ts: Option<Seq<char>>|
                        self@ == spec_ingest_record(old(self)@, recg@, ts);
                    assert(crate::json::sp_message(input@) == Some(crate::json::record_deep(recg@))
                        && self@ == spec_ingest_record(old(self)@, recg@, ts));
                }
            },
            None => {},
        }
    }
}

} // verus!
