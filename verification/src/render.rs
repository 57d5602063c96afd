//! Rendering the span tree to text, and the single-slot query cache.
//!
//! A span renders as a header line `[name, k = v, ...]` (suppressed when
//! the name is empty) followed by its children in arrival order: child
//! spans one indent level deeper, messages as one line each.

use vstd::prelude::*;

use std::sync::Arc;

use crate::store::{
    event_wf, fields_valid, msg_wf, span_wf, store_wf, EventEntry, LogsInner, MessageEntry,
    MessageModel, Query, SpanEntry, SpanModel, StoreModel,
};
use crate::text::{push_i64_text, spec_i64_text, spec_indent_text};
use crate::value::{IString, IValue, Level, SpanId};

verus! {

/// The display text of one value: interned strings by content, booleans and
/// integers in their usual decimal form, floats as the literal text they
/// were written as.
pub open spec fn spec_value_text(table: Seq<Seq<char>>, v: IValue) -> Seq<char> {
    match v {
        IValue::S(h) => table[h.id as int],
        IValue::B(b) => if b {
            "true"@
        } else {
            "false"@
        },
        IValue::I(i) => spec_i64_text(i as int),
        IValue::F(f) => f.text@,
    }
}

/// The `, k = v` items of a span header, in field order.
pub open spec fn spec_header_fields(table: Seq<Seq<char>>, fields: Seq<(IString, IValue)>) -> Seq<
    char,
>
    decreases fields.len(),
{
    if fields.len() == 0 {
        Seq::empty()
    } else {
        spec_header_fields(table, fields.drop_last()) + ", "@ + table[fields.last().0.id as int]
            + " = "@ + spec_value_text(table, fields.last().1)
    }
}

/// A span's header line at the given indent depth; a span with an empty
/// name renders no header at all.
pub open spec fn spec_header_text(table: Seq<Seq<char>>, s: SpanModel, depth: nat) -> Seq<char> {
    if table[s.name.id as int].len() == 0 {
        Seq::empty()
    } else {
        spec_indent_text(depth) + "["@ + table[s.name.id as int] + spec_header_fields(
            table,
            s.fields,
        ) + "]\n"@
    }
}

/// The fixed-width level column: the name right-padded to five characters
/// in brackets, or a blank placeholder of the same width when absent.
pub open spec fn spec_level_text(l: Option<Level>) -> Seq<char> {
    match l {
        Some(Level::Error) => "[ERROR] "@,
        Some(Level::Warn) => "[WARN ] "@,
        Some(Level::Info) => "[INFO ] "@,
        Some(Level::Debug) => "[DEBUG] "@,
        Some(Level::Trace) => "[TRACE] "@,
        None => "        "@,
    }
}

/// The `[k = v] ` items of a message line, in field order, with pairs keyed
/// by the well-known `"message"` key suppressed (their value is the message
/// text, rendered at the end of the line instead).
pub open spec fn spec_msg_fields(
    table: Seq<Seq<char>>,
    i_message: IString,
    fields: Seq<(IString, IValue)>,
) -> Seq<char>
    decreases fields.len(),
{
    if fields.len() == 0 {
        Seq::empty()
    } else {
        spec_msg_fields(table, i_message, fields.drop_last()) + (if fields.last().0 == i_message {
            Seq::<char>::empty()
        } else {
            "["@ + table[fields.last().0.id as int] + " = "@ + spec_value_text(
                table,
                fields.last().1,
            ) + "] "@
        })
    }
}

/// The first value keyed by the well-known `"message"` key, if any.
pub open spec fn spec_find_message(fields: Seq<(IString, IValue)>, i_message: IString) -> Option<
    IValue,
>
    decreases fields.len(),
{
    if fields.len() == 0 {
        None
    } else if fields[0].0 == i_message {
        Some(fields[0].1)
    } else {
        spec_find_message(fields.drop_first(), i_message)
    }
}

/// One message line under a span at `depth`: indent, level column,
/// timestamp (omitted entirely when absent), the field dump, the message
/// text, and a newline.
pub open spec fn spec_message_text(m: StoreModel, msg: MessageModel, depth: nat) -> Seq<char> {
    spec_indent_text(depth + 1) + spec_level_text(msg.level) + (match msg.timestamp {
        Some(t) => "["@ + t + "] "@,
        None => Seq::<char>::empty(),
    }) + spec_msg_fields(m.table, m.i_message, msg.fields) + (match spec_find_message(
        msg.fields,
        m.i_message,
    ) {
        Some(v) => spec_value_text(m.table, v),
        None => Seq::<char>::empty(),
    }) + "\n"@
}

/// The rendering of span `k`'s events from index `i` up to `hi`, depth-first
/// in arrival order.
pub open spec fn spec_render_events(m: StoreModel, k: int, depth: nat, i: int, hi: int) -> Seq<
    char,
>
    decreases m.spans.len() - k, hi - i, 0nat,
        when store_wf(m) && 0 <= k < m.spans.len() && hi <= m.spans[k].events.len()
        via spec_render_events_decreases
{
    if i < 0 || i >= hi {
        Seq::empty()
    } else {
        (match m.spans[k].events[i] {
            EventEntry::Message(mid) => spec_message_text(m, m.messages[mid as int], depth),
            EventEntry::Span(c) => spec_render_span(m, c as int, depth + 1),
        }) + spec_render_events(m, k, depth, i + 1, hi)
    }
}

#[via_fn]
proof fn spec_render_events_decreases(m: StoreModel, k: int, depth: nat, i: int, hi: int) {
    if !(i < 0 || i >= hi) {
        assert(span_wf(m, k));
        assert(event_wf(m, k, m.spans[k].events[i]));
    }
}

/// The full rendering of span `k` at `depth`: its header, then all events.
pub open spec fn spec_render_span(m: StoreModel, k: int, depth: nat) -> Seq<char>
    decreases m.spans.len() - k, m.spans[k].events.len(), 1nat,
        when store_wf(m) && 0 <= k < m.spans.len()
{
    spec_header_text(m.table, m.spans[k], depth) + spec_render_events(
        m,
        k,
        depth,
        0,
        m.spans[k].events.len() as int,
    )
}

/// The rendering of span `k` restricted to an event window, as the range
/// form of the recursive printer produces it.
pub open spec fn spec_render_span_range(m: StoreModel, k: int, depth: nat, lo: int, hi: int) -> Seq<
    char,
> {
    spec_header_text(m.table, m.spans[k], depth) + spec_render_events(m, k, depth, lo, hi)
}

/// A query names the root or an existing span.
pub open spec fn query_valid(m: StoreModel, q: Query) -> bool {
    match q {
        Query::All => true,
        Query::Span(k) => k < m.spans.len(),
    }
}

pub open spec fn spec_query_target(m: StoreModel, q: Query) -> int {
    match q {
        Query::All => m.root_span as int,
        Query::Span(k) => k as int,
    }
}

/// The text a query renders to: the chosen span's subtree (the root for
/// `All`), starting at indent depth zero.
pub open spec fn spec_query_text(m: StoreModel, q: Query) -> Seq<char> {
    spec_render_span(m, spec_query_target(m, q), 0)
}

/// Appends `depth` levels of four-space indentation.
pub fn print_indent(output: &mut String, depth: usize)
    ensures
        final(output)@ == old(output)@ + spec_indent_text(depth as nat),
{
    let mut i: usize = 0;
    while i < depth
        invariant
            i <= depth,
            output@ == old(output)@ + spec_indent_text(i as nat),
        decreases depth - i,
    {
        output.append("    ");
        i += 1;
        proof {
            assert(output@ =~= old(output)@ + spec_indent_text(i as nat));
        }
    }
}

/// Appends the display text of one value.
pub fn print_val(this: &LogsInner, output: &mut String, _depth: usize, val: &IValue)
    requires
        this.wf(),
        (val matches IValue::S(h) ==> h.id < this@.table.len()),
    ensures
        final(output)@ == old(output)@ + spec_value_text(this@.table, *val),
{
    match val {
        IValue::S(h) => {
            output.append(this.interner.strings[h.id].as_str());
        },
        IValue::B(b) => {
            if *b {
                output.append("true");
            } else {
                output.append("false");
            }
        },
        IValue::I(i) => {
            push_i64_text(*i, output);
        },
        IValue::F(f) => {
            output.append(f.text.as_str());
        },
    }
}

/// Appends a span's header line: `[name, k = v, ...]` at the given indent,
/// or nothing when the span's name is empty.
pub fn print_span_header(this: &LogsInner, output: &mut String, depth: usize, span: &SpanEntry)
    requires
        this.wf(),
        span@.name.id < this@.table.len(),
        fields_valid(this@, span@.fields),
    ensures
        final(output)@ == old(output)@ + spec_header_text(this@.table, span@, depth as nat),
{
    if this.interner.strings[span.name.id].as_str().is_empty() {
        proof {
            assert(output@ =~= old(output)@ + spec_header_text(this@.table, span@, depth as nat));
        }
        return ;
    }
    print_indent(output, depth);
    output.append("[");
    output.append(this.interner.strings[span.name.id].as_str());
    let n = span.fields.vals.len();
    let mut i: usize = 0;
    while i < n
        invariant
            this.wf(),
            span@.name.id < this@.table.len(),
            fields_valid(this@, span@.fields),
            n == span@.fields.len(),
            i <= n,
            output@ == old(output)@ + spec_indent_text(depth as nat) + "["@
                + this@.table[span@.name.id as int] + spec_header_fields(
                this@.table,
                span@.fields.take(i as int),
            ),
        decreases n - i,
    {
        proof {
            assert(span@.fields.take(i as int + 1).drop_last() =~= span@.fields.take(i as int));
            assert(span@.fields.take(i as int + 1).last() == span@.fields[i as int]);
        }
        output.append(", ");
        let pair = &span.fields.vals[i];
        output.append(this.interner.strings[pair.0.id].as_str());
        output.append(" = ");
        print_val(this, output, depth, &pair.1);
        i += 1;
        proof {
            assert(output@ =~= old(output)@ + spec_indent_text(depth as nat) + "["@
                + this@.table[span@.name.id as int] + spec_header_fields(
                this@.table,
                span@.fields.take(i as int),
            ));
        }
    }
    output.append("]\n");
    proof {
        assert(span@.fields.take(n as int) =~= span@.fields);
        assert(output@ =~= old(output)@ + spec_header_text(this@.table, span@, depth as nat));
    }
}

/// The first value under the well-known `"message"` key of a message's
/// fields, if any: the message text.
pub fn find_message_value<'a>(this: &LogsInner, msg: &'a MessageEntry) -> (r: Option<&'a IValue>)
    ensures
        (match r {
            Some(v) => spec_find_message(msg@.fields, this@.i_message) == Some(*v),
            None => spec_find_message(msg@.fields, this@.i_message) is None,
        }),
        (r matches Some(v) ==> exists|i: int|
            0 <= i < msg@.fields.len() && (#[trigger] msg@.fields[i]).1 == *v),
{
    let ghost d = msg@.fields;
    proof {
        assert(d.skip(0) =~= d);
    }
    let n = msg.fields.vals.len();
    let mut j: usize = 0;
    while j < n
        invariant
            d == msg@.fields,
            n == msg@.fields.len(),
            j <= n,
            spec_find_message(d, this@.i_message) == spec_find_message(
                d.skip(j as int),
                this@.i_message,
            ),
        decreases n - j,
    {
        proof {
            assert(d.skip(j as int)[0] == d[j as int]);
            assert(d.skip(j as int).drop_first() =~= d.skip(j as int + 1));
        }
        let pair = &msg.fields.vals[j];
        if pair.0 == this.i_message {
            return Some(&pair.1);
        }
        j += 1;
    }
    proof {
        assert(d.skip(n as int) =~= Seq::<(IString, IValue)>::empty());
    }
    None
}

/// Appends one message line: indent, level column, timestamp when present,
/// the `[k = v]` dump of non-message fields, the message text, a newline.
#[verifier::rlimit(100)]
pub fn print_message_line(this: &LogsInner, output: &mut String, depth: usize, msg: &MessageEntry)
    requires
        this.wf(),
        depth < usize::MAX,
        fields_valid(this@, msg@.fields),
    ensures
        final(output)@ == old(output)@ + spec_message_text(this@, msg@, depth as nat),
{
    let ghost pa = spec_indent_text(depth as nat + 1);
    let ghost pb = spec_level_text(msg@.level);
    let ghost pc = (match msg@.timestamp {
        Some(t) => "["@ + t + "] "@,
        None => Seq::<char>::empty(),
    });
    let ghost pd = spec_msg_fields(this@.table, this@.i_message, msg@.fields);
    let ghost pe = (match spec_find_message(msg@.fields, this@.i_message) {
        Some(v) => spec_value_text(this@.table, v),
        None => Seq::<char>::empty(),
    });
    print_indent(output, depth + 1);
    proof {
        assert(output@ == old(output)@ + pa);
    }
    match msg.level {
        Some(Level::Error) => output.append("[ERROR] "),
        Some(Level::Warn) => output.append("[WARN ] "),
        Some(Level::Info) => output.append("[INFO ] "),
        Some(Level::Debug) => output.append("[DEBUG] "),
        Some(Level::Trace) => output.append("[TRACE] "),
        None => output.append("        "),
    }
    proof {
        assert(output@ == old(output)@ + pa + pb);
    }
    match &msg.timestamp {
        Some(t) => {
            output.append("[");
            output.append(t.as_str());
            output.append("] ");
        },
        None => {},
    }
    proof {
        assert(output@ =~= old(output)@ + pa + pb + pc);
    }
    let ghost pre_fields = output@;
    let n = msg.fields.vals.len();
    let mut i: usize = 0;
    while i < n
        invariant
            this.wf(),
            fields_valid(this@, msg@.fields),
            n == msg@.fields.len(),
            i <= n,
            output@ == pre_fields + spec_msg_fields(
                this@.table,
                this@.i_message,
                msg@.fields.take(i as int),
            ),
        decreases n - i,
    {
        proof {
            assert(msg@.fields.take(i as int + 1).drop_last() =~= msg@.fields.take(i as int));
            assert(msg@.fields.take(i as int + 1).last() == msg@.fields[i as int]);
        }
        let pair = &msg.fields.vals[i];
        if !(pair.0 == this.i_message) {
            output.append("[");
            output.append(this.interner.strings[pair.0.id].as_str());
            output.append(" = ");
            print_val(this, output, depth, &pair.1);
            output.append("] ");
        }
        i += 1;
        proof {
            assert(output@ =~= pre_fields + spec_msg_fields(
                this@.table,
                this@.i_message,
                msg@.fields.take(i as int),
            ));
        }
    }
    proof {
        assert(msg@.fields.take(n as int) =~= msg@.fields);
        assert(output@ == old(output)@ + pa + pb + pc + pd);
    }
    let found = find_message_value(this, msg);
    match found {
        Some(v) => {
            proof {
                let i = choose|i: int|
                    0 <= i < msg@.fields.len() && (#[trigger] msg@.fields[i]).1 == *v;
                assert(msg@.fields[i].1 == *v);
            }
            print_val(this, output, depth + 1, v);
        },
        None => {},
    }
    proof {
        assert(output@ =~= old(output)@ + pa + pb + pc + pd + pe);
    }
    output.append("\n");
    proof {
        assert(spec_message_text(this@, msg@, depth as nat) == pa + pb + pc + pd + pe + "\n"@);
        assert(output@ == old(output)@ + spec_message_text(this@, msg@, depth as nat));
    }
}

/// Renders span `span` and, depth-first in arrival order, everything under
/// it: child spans one indent level deeper, messages as single lines.
/// `range` restricts the call to a window of the span's own events.
pub fn print_span_recursive(
    this: &LogsInner,
    output: &mut String,
    depth: usize,
    span: SpanId,
    range: Option<(usize, usize)>,
)
    requires
        this.wf(),
        span < this@.spans.len(),
        depth <= span,
        (range matches Some(r) ==> r.0 <= r.1 <= this@.spans[span as int].events.len()),
    ensures
        final(output)@ == old(output)@ + (match range {
            Some(r) => spec_render_span_range(
                this@,
                span as int,
                depth as nat,
                r.0 as int,
                r.1 as int,
            ),
            None => spec_render_span(this@, span as int, depth as nat),
        }),
    decreases this@.spans.len() - span,
{
    let nspans = this.spans.len();
    let entry = &this.spans[span];
    proof {
        assert(span_wf(this@, span as int));
        assert(nspans == this@.spans.len());
    }
    print_span_header(this, output, depth, entry);
    let ghost hdr = spec_header_text(this@.table, this@.spans[span as int], depth as nat);
    let (lo, hi): (usize, usize) = match range {
        Some(r) => (r.0, r.1),
        None => (0, entry.events.len()),
    };
    let ghost target = old(output)@ + hdr + spec_render_events(
        this@,
        span as int,
        depth as nat,
        lo as int,
        hi as int,
    );
    let mut idx = lo;
    while idx < hi
        invariant
            this.wf(),
            span < this@.spans.len(),
            depth <= span,
            entry@ == this@.spans[span as int],
            this@.spans.len() <= usize::MAX,
            lo <= idx <= hi <= this@.spans[span as int].events.len(),
            target == output@ + spec_render_events(
                this@,
                span as int,
                depth as nat,
                idx as int,
                hi as int,
            ),
        decreases hi - idx,
    {
        let ghost pre = output@;
        let ev = &entry.events[idx];
        proof {
            assert(span_wf(this@, span as int));
            assert(event_wf(this@, span as int, this@.spans[span as int].events[idx as int]));
        }
        match ev {
            EventEntry::Message(mid) => {
                proof {
                    assert(msg_wf(this@, *mid as int));
                    assert(this.messages@[*mid as int]@ == this@.messages[*mid as int]);
                }
                print_message_line(this, output, depth, &this.messages[*mid]);
            },
            EventEntry::Span(c) => {
                print_span_recursive(this, output, depth + 1, *c, None);
            },
        }
        idx += 1;
        proof {
            assert(target =~= output@ + spec_render_events(
                this@,
                span as int,
                depth as nat,
                idx as int,
                hi as int,
            ));
        }
    }
    proof {
        assert(spec_render_events(this@, span as int, depth as nat, hi as int, hi as int)
            == Seq::<char>::empty());
        assert(output@ =~= target);
        if range is None {
            assert(hi == this@.spans[span as int].events.len());
        }
    }
}

/// Relies on `Arc::clone`: the returned handle shares the same allocation,
/// so its content is exactly the argument's.
#[verifier::external_body]
fn arc_clone(a: &Arc<String>) -> (r: Arc<String>)
    ensures
        r@ == a@,
{
    Arc::clone(a)
}

impl LogsInner {
    /// Renders the chosen span (the root for `All`) to text, memoizing the
    /// single most recent query: a repeated query returns the cached text
    /// without recomputing and without touching the store; any other query
    /// recomputes and replaces the cache. Note that ingestion does not
    /// invalidate the cache by itself: a repeated query after further
    /// ingestion still returns the memoized text.
    pub fn string_query(&mut self, query: Query) -> (r: Arc<String>)
        requires
            old(self).wf(),
            query_valid(old(self)@, query),
        ensures
            final(self).wf(),
            ({
                let pre = old(self)@;
                if pre.last_query == Some(query) && pre.cur_string is Some {
                    &&& *final(self) == *old(self)
                    &&& Some(r@) == pre.cur_string
                } else {
                    &&& r@ == spec_query_text(pre, query)
                    &&& final(self)@ == (StoreModel {
                        last_query: Some(query),
                        cur_string: Some(r@),
                        ..pre
                    })
                }
            }),
    {
        let hit = match &self.last_query {
            Some(q) => *q == query,
            None => false,
        };
        if hit {
            match &self.cur_string {
                Some(s) => {
                    return arc_clone(s);
                },
                None => {},
            }
        }
        let mut output = String::new();
        let target: SpanId = match query {
            Query::All => self.root_span,
            Query::Span(s) => s,
        };
        print_span_recursive(self, &mut output, 0, target, None);
        let result = Arc::new(output);
        self.last_query = Some(query);
        self.cur_string = Some(arc_clone(&result));
        proof {
            assert(self@ =~~= (StoreModel {
                last_query: Some(query),
                cur_string: Some(result@),
                ..old(self)@
            }));
            crate::store::lemma_wf_cache_set(old(self)@, Some(query), Some(result@));
        }
        result
    }
}

/// Root invariant: a store reset by `clear` holds exactly the root span
/// with no events, so rendering the whole tree yields only the root's
/// header line, and nothing at all when the root's name is empty.
pub proof fn lemma_render_after_clear(m: StoreModel)
    requires
        store_wf(m),
        m.spans.len() == 1,
        m.spans[0].events.len() == 0,
    ensures
        spec_query_text(m, Query::All) == spec_header_text(m.table, m.spans[0], 0),
        m.table[m.spans[0].name.id as int].len() == 0 ==> spec_query_text(m, Query::All)
            == Seq::<char>::empty(),
{
    assert(spec_render_events(m, 0, 0, 0, 0) == Seq::<char>::empty());
    assert(spec_query_text(m, Query::All) =~= spec_header_text(m.table, m.spans[0], 0));
    if m.table[m.spans[0].name.id as int].len() == 0 {
        assert(spec_header_text(m.table, m.spans[0], 0) == Seq::<char>::empty());
    }
}

} // verus!
