//! ITM protocol.
//!
//! The decoder consumes one byte at a time. A header byte is classified by
//! its bit pattern; packets with payloads accumulate further bytes until they
//! complete or turn out malformed. Bytes of a malformed payload are recycled:
//! pushed onto a stack from which they are re-classified, in arrival order,
//! before any new input is consumed. Source-packet payloads are fanned out to
//! the sinks selected for the packet's stimulus port.
//!
//! The whole observable behaviour of one consumed byte is captured by the
//! specification-level transition [`pump_spec`]; the executable
//! [`Parser::pump`] is proved to follow it exactly.

use vstd::prelude::*;

use crate::PORTS_COUNT;
use crate::output::Output;

verus! {

broadcast use vstd::std_specs::bits::axiom_u8_trailing_zeros;

/// Timestamp packet kind.
#[derive(Debug, Clone, Copy, PartialEq, Eq)]
pub enum Timestamp {
    /// Local timestamp with its `tc` header bits.
    Local { tc: u8 },
    /// Global timestamp, first form.
    Global1,
    /// Global timestamp, second form.
    Global2,
}

/// What the decoder is accumulating between bytes.
#[derive(Debug, Clone, Copy)]
pub enum Mode {
    /// Awaiting a header byte.
    Idle,
    /// Counting the zero bits of a synchronization packet.
    Sync { zeros: u64 },
    /// Accumulating the continuation payload of an extension packet.
    Ext { sh: u8, ex: u8 },
    /// Accumulating the continuation payload of a timestamp packet.
    Ts { ts: Timestamp },
    /// Accumulating the fixed-size payload of a source packet.
    Src { software: bool, port: u8, size: u8 },
}

/// One observable effect of consuming a byte.
///
/// Packet and malformation events are log records for the caller; a
/// `SinkWrite` instructs the caller to append `data` to the real destination
/// behind sink number `sink`.
#[derive(Debug, PartialEq)]
pub enum Event {
    /// A valid synchronization packet with its counted zero bits.
    Synchronization { zeros: u64 },
    /// An overflow packet.
    Overflow,
    /// An extension packet.
    Extension { sh: u8, ex: u8, payload: Vec<u8> },
    /// A timestamp packet.
    Timestamp { ts: Timestamp, payload: Vec<u8> },
    /// A source packet for a stimulus port.
    Source { software: bool, port: u8, payload: Vec<u8> },
    /// Payload bytes emitted to one sink.
    SinkWrite { sink: usize, data: Vec<u8> },
    /// A zero run too short to synchronize.
    BadSynchronization { zeros: u64 },
    /// An extension payload that never terminated.
    BadExtension,
    /// A timestamp payload that never terminated.
    BadTimestamp,
    /// A header byte that matches no packet kind.
    InvalidHeader,
}

/// Specification-level value of an [`Event`].
#[verifier::ext_equal]
pub enum EventV {
    /// A valid synchronization packet with its counted zero bits.
    Synchronization { zeros: u64 },
    /// An overflow packet.
    Overflow,
    /// An extension packet.
    Extension { sh: u8, ex: u8, payload: Seq<u8> },
    /// A timestamp packet.
    Timestamp { ts: Timestamp, payload: Seq<u8> },
    /// A source packet for a stimulus port.
    Source { software: bool, port: u8, payload: Seq<u8> },
    /// Payload bytes emitted to one sink.
    SinkWrite { sink: usize, data: Seq<u8> },
    /// A zero run too short to synchronize.
    BadSynchronization { zeros: u64 },
    /// An extension payload that never terminated.
    BadExtension,
    /// A timestamp payload that never terminated.
    BadTimestamp,
    /// A header byte that matches no packet kind.
    InvalidHeader,
}

impl View for Event {
    type V = EventV;

    open spec fn view(&self) -> EventV {
        match self {
            Event::Synchronization { zeros } => EventV::Synchronization { zeros: *zeros },
            Event::Overflow => EventV::Overflow,
            Event::Extension { sh, ex, payload } => EventV::Extension {
                sh: *sh,
                ex: *ex,
                payload: payload@,
            },
            Event::Timestamp { ts, payload } => EventV::Timestamp { ts: *ts, payload: payload@ },
            Event::Source { software, port, payload } => EventV::Source {
                software: *software,
                port: *port,
                payload: payload@,
            },
            Event::SinkWrite { sink, data } => EventV::SinkWrite { sink: *sink, data: data@ },
            Event::BadSynchronization { zeros } => EventV::BadSynchronization { zeros: *zeros },
            Event::BadExtension => EventV::BadExtension,
            Event::BadTimestamp => EventV::BadTimestamp,
            Event::InvalidHeader => EventV::InvalidHeader,
        }
    }
}

/// The values of a sequence of events.
pub open spec fn events_view(es: Seq<Event>) -> Seq<EventV> {
    es.map_values(|e: Event| e@)
}

/// The accumulation part of the decoder state: the current mode and the
/// payload gathered so far.
#[verifier::ext_equal]
pub struct CoreV {
    pub mode: Mode,
    pub payload: Seq<u8>,
}

/// The whole decoder state: accumulation plus the recycle stack. The top of
/// the stack is the sequence's last element.
#[verifier::ext_equal]
pub struct DecV {
    pub core: CoreV,
    pub recycle: Seq<u8>,
}

/// The idle accumulation state.
pub open spec fn idle_core() -> CoreV {
    CoreV { mode: Mode::Idle, payload: Seq::<u8>::empty() }
}

/// `n` clamped to the largest `u64`.
pub open spec fn sat64(n: int) -> u64 {
    if n <= u64::MAX as int {
        n as u64
    } else {
        u64::MAX
    }
}

/// Classification of a header byte `b`: the accumulation state it opens and
/// the events it emits by itself. Never touches the recycle stack and never
/// writes to a sink.
pub open spec fn classify_spec(b: u8) -> (CoreV, Seq<EventV>) {
    if b == 0 {
        (CoreV { mode: Mode::Sync { zeros: 8 }, payload: Seq::<u8>::empty() }, Seq::<EventV>::empty())
    } else if b == 0x70 {
        (idle_core(), seq![EventV::Overflow])
    } else if b & 0x0b == 0x08 {
        let sh = (b << 5) >> 7;
        let ex = (b << 1) >> 5;
        if b >> 7 == 0 {
            (idle_core(), seq![EventV::Extension { sh, ex, payload: Seq::<u8>::empty() }])
        } else {
            (CoreV { mode: Mode::Ext { sh, ex }, payload: Seq::<u8>::empty() }, Seq::<EventV>::empty())
        }
    } else if b & 0x0b == 0 {
        if b & 0x8f == 0 && b & 0x70 != 0 && b & 0x70 != 0x70 {
            (
                idle_core(),
                seq![
                    EventV::Timestamp { ts: (Timestamp::Local { tc: 0 }), payload: seq![(b << 1) >> 5] }
                ],
            )
        } else if b & 0xcf == 0xc0 {
            (
                CoreV {
                    mode: Mode::Ts { ts: (Timestamp::Local { tc: (b << 2) >> 6 }) },
                    payload: Seq::<u8>::empty(),
                },
                Seq::<EventV>::empty(),
            )
        } else if b == 0x94 {
            (
                CoreV { mode: Mode::Ts { ts: Timestamp::Global1 }, payload: Seq::<u8>::empty() },
                Seq::<EventV>::empty(),
            )
        } else if b == 0xb4 {
            (
                CoreV { mode: Mode::Ts { ts: Timestamp::Global2 }, payload: Seq::<u8>::empty() },
                Seq::<EventV>::empty(),
            )
        } else {
            (idle_core(), seq![EventV::InvalidHeader])
        }
    } else {
        let software = b & 0x04 == 0;
        let port = b >> 3;
        let size: u8 = if b & 0x03 == 0x01 {
            1
        } else if b & 0x03 == 0x02 {
            2
        } else {
            4
        };
        (
            CoreV { mode: Mode::Src { software, port, size }, payload: Seq::<u8>::empty() },
            Seq::<EventV>::empty(),
        )
    }
}

/// True of a header byte that opens a source packet: some bit of the low
/// `0000_1011` mask is set, but not the extension pattern (bit 3 set, bits 0
/// and 1 clear).
pub open spec fn is_source_header(h: u8) -> bool {
    h & 0x0b != 0 && h & 0x0b != 0x08
}

/// The sinks routed for `port`, or none when the port is out of the table.
pub open spec fn route_of(routes: Seq<Seq<usize>>, port: u8) -> Seq<usize> {
    if (port as int) < routes.len() {
        routes[port as int]
    } else {
        Seq::<usize>::empty()
    }
}

/// One write event per routed sink, in route order, each carrying the whole
/// payload.
pub open spec fn write_events(route: Seq<usize>, payload: Seq<u8>) -> Seq<EventV> {
    route.map_values(|j: usize| EventV::SinkWrite { sink: j, data: payload })
}

/// Feeding one byte `b` into the decoder: how the state changes and which
/// events come out, before the recycle stack is drained. A recognized
/// synchronization packet resynchronizes the stream: it discards whatever
/// stale bytes the recycle stack still held.
pub open spec fn feed_spec(routes: Seq<Seq<usize>>, d: DecV, b: u8) -> (DecV, Seq<EventV>) {
    match d.core.mode {
        Mode::Idle => {
            let (c, es) = classify_spec(b);
            (DecV { core: c, recycle: d.recycle }, es)
        }
        Mode::Sync { zeros } => {
            let pl = d.core.payload.push(b);
            let z = sat64(zeros + vstd::std_specs::bits::u8_trailing_zeros(b));
            if b == 0 {
                (
                    DecV { core: CoreV { mode: Mode::Sync { zeros: z }, payload: pl }, recycle: d.recycle },
                    Seq::<EventV>::empty(),
                )
            } else if z >= 47 {
                (
                    DecV { core: idle_core(), recycle: Seq::<u8>::empty() },
                    seq![EventV::Synchronization { zeros: z }],
                )
            } else {
                (
                    DecV { core: idle_core(), recycle: d.recycle + pl.reverse() },
                    seq![EventV::BadSynchronization { zeros: z }],
                )
            }
        }
        Mode::Ext { sh, ex } => {
            let pl = d.core.payload.push(b);
            if b >> 7 == 0 {
                (
                    DecV { core: idle_core(), recycle: d.recycle },
                    seq![EventV::Extension { sh, ex, payload: pl }],
                )
            } else if pl.len() >= 4 {
                (DecV { core: idle_core(), recycle: d.recycle + pl.reverse() }, seq![EventV::BadExtension])
            } else {
                (
                    DecV { core: CoreV { mode: d.core.mode, payload: pl }, recycle: d.recycle },
                    Seq::<EventV>::empty(),
                )
            }
        }
        Mode::Ts { ts } => {
            let pl = d.core.payload.push(b);
            if b >> 7 == 0 {
                (
                    DecV { core: idle_core(), recycle: d.recycle },
                    seq![EventV::Timestamp { ts, payload: pl }],
                )
            } else if pl.len() >= 4 {
                (DecV { core: idle_core(), recycle: d.recycle + pl.reverse() }, seq![EventV::BadTimestamp])
            } else {
                (
                    DecV { core: CoreV { mode: d.core.mode, payload: pl }, recycle: d.recycle },
                    Seq::<EventV>::empty(),
                )
            }
        }
        Mode::Src { software, port, size } => {
            let pl = d.core.payload.push(b);
            if pl.len() >= size as int {
                (
                    DecV { core: idle_core(), recycle: d.recycle },
                    seq![EventV::Source { software, port, payload: pl }] + write_events(
                        route_of(routes, port),
                        pl,
                    ),
                )
            } else {
                (
                    DecV { core: CoreV { mode: d.core.mode, payload: pl }, recycle: d.recycle },
                    Seq::<EventV>::empty(),
                )
            }
        }
    }
}

/// Draining the recycle stack: while the decoder is idle and the stack is not
/// empty, the stack's top byte is popped and classified, exactly once each.
/// Classification can open an accumulating mode, which stops the drain until
/// more input arrives.
pub open spec fn drain_spec(d: DecV) -> (DecV, Seq<EventV>)
    decreases d.recycle.len(),
{
    if !(d.core.mode is Idle) || d.recycle.len() == 0 {
        (d, Seq::<EventV>::empty())
    } else {
        let b = d.recycle.last();
        let (c, es) = classify_spec(b);
        let d1 = DecV { core: c, recycle: d.recycle.drop_last() };
        let r = drain_spec(d1);
        (r.0, es + r.1)
    }
}

/// The whole effect of consuming one byte: feed it, then drain the recycle
/// stack.
pub open spec fn pump_spec(routes: Seq<Seq<usize>>, d: DecV, b: u8) -> (DecV, Seq<EventV>) {
    let f = feed_spec(routes, d, b);
    let r = drain_spec(f.0);
    (r.0, f.1 + r.1)
}

/// The bytes `es` orders written to sink `j`: the concatenation, in event
/// order, of the data of every `SinkWrite` aimed at `j`.
pub open spec fn writes_to(es: Seq<EventV>, j: int) -> Seq<u8>
    decreases es.len(),
{
    if es.len() == 0 {
        Seq::<u8>::empty()
    } else {
        (match es[0] {
            EventV::SinkWrite { sink, data } => if sink as int == j {
                data
            } else {
                Seq::<u8>::empty()
            },
            _ => Seq::<u8>::empty(),
        }) + writes_to(es.drop_first(), j)
    }
}

/// Synchronization packet: the event recorded for a valid zero run.
pub fn synchronization_packet(zeros: u64) -> (e: Event)
    ensures
        e@ == (EventV::Synchronization { zeros }),
{
    Event::Synchronization { zeros }
}

/// Extension packet: the event recorded for a terminated extension payload.
pub fn extension_packet(sh: u8, ex: u8, payload: Vec<u8>) -> (e: Event)
    ensures
        e@ == (EventV::Extension { sh, ex, payload: payload@ }),
{
    Event::Extension { sh, ex, payload }
}

/// Timestamp packet: the event recorded for a terminated timestamp payload.
pub fn timestamp_packet(ts: Timestamp, payload: Vec<u8>) -> (e: Event)
    ensures
        e@ == (EventV::Timestamp { ts, payload: payload@ }),
{
    Event::Timestamp { ts, payload }
}

} // verus!

verus! {

/// ITM protocol parser: the decoder state, the route table, and the sinks it
/// fans out to.
pub struct Parser {
    /// The opened outputs; sink `j` is `outputs[j].output`.
    pub outputs: Vec<Output>,
    /// Route table: entry `p` lists, in order, the sinks receiving port `p`.
    pub routes: Vec<Vec<usize>>,
    /// Current accumulation mode.
    pub mode: Mode,
    /// Payload bytes gathered for the packet in progress.
    pub payload: Vec<u8>,
    /// Recycle stack; the top is the vector's last element.
    pub recycle: Vec<u8>,
}

/// What the accumulation mode promises of the gathered payload.
pub open spec fn mode_wf(mode: Mode, payload: Seq<u8>) -> bool {
    match mode {
        Mode::Idle => payload.len() == 0,
        Mode::Sync { zeros } => (forall|i: int| 0 <= i < payload.len() ==> payload[i] == 0)
            && zeros == sat64(8 + 8 * payload.len() as int),
        Mode::Ext { .. } => payload.len() < 4,
        Mode::Ts { .. } => payload.len() < 4,
        Mode::Src { software, port, size } => (size == 1 || size == 2 || size == 4) && (port as int)
            < PORTS_COUNT as int && payload.len() < size as int,
    }
}

impl Parser {
    /// The route table as sequences.
    pub open spec fn routes_v(self) -> Seq<Seq<usize>> {
        self.routes@.map_values(|r: Vec<usize>| r@)
    }

    /// The accumulation part of the decoder state.
    pub open spec fn acc(self) -> CoreV {
        CoreV { mode: self.mode, payload: self.payload@ }
    }

    /// The decoder state.
    pub open spec fn dec(self) -> DecV {
        DecV { core: self.acc(), recycle: self.recycle@ }
    }

    /// The route table has one entry per port and every routed sink exists,
    /// and the accumulation mode is sound.
    pub open spec fn wf_core(self) -> bool {
        &&& self.routes@.len() == PORTS_COUNT as int
        &&& (forall|p: int, k: int|
            0 <= p < self.routes@.len() && 0 <= k < self.routes@[p]@.len() ==> (
            #[trigger] self.routes@[p]@[k]) < self.outputs@.len())
        &&& mode_wf(self.mode, self.payload@)
    }

    /// Between two consumed bytes the parser is well formed; in particular an
    /// idle parser has an empty recycle stack.
    pub open spec fn wf(self) -> bool {
        &&& self.wf_core()
        &&& (self.mode is Idle ==> self.recycle@.len() == 0)
    }
}

/// A fresh copy of the bytes of `v`.
fn copy_bytes(v: &Vec<u8>) -> (r: Vec<u8>)
    ensures
        r@ == v@,
{
    let mut r: Vec<u8> = Vec::new();
    let n: usize = v.len();
    let mut i: usize = 0;
    while i < n
        invariant
            i <= n,
            n == v@.len(),
            r@ == v@.take(i as int),
        decreases n - i,
    {
        r.push(v[i]);
        i = i + 1;
        proof {
            assert(v@.take(i as int) =~= v@.take(i - 1) + seq![v@[i - 1]]);
        }
    }
    proof {
        assert(v@.take(n as int) =~= v@);
    }
    r
}

/// Events keep their values when one is appended.
proof fn lemma_events_view_push(es: Seq<Event>, e: Event)
    ensures
        events_view(es.push(e)) =~= events_view(es).push(e@),
{
}

/// `writes_to` distributes over concatenation.
proof fn lemma_writes_to_concat(a: Seq<EventV>, b: Seq<EventV>, j: int)
    ensures
        writes_to(a + b, j) =~= writes_to(a, j) + writes_to(b, j),
    decreases a.len(),
{
    if a.len() == 0 {
        assert(a + b =~= b);
        assert(writes_to(a, j) + writes_to(b, j) =~= writes_to(b, j));
    } else {
        assert((a + b).drop_first() =~= a.drop_first() + b);
        assert((a + b)[0] == a[0]);
        lemma_writes_to_concat(a.drop_first(), b, j);
        assert(writes_to(a + b, j) =~= writes_to(a, j) + writes_to(b, j));
    }
}

/// Events among which no sink write occurs order nothing written.
proof fn lemma_writes_to_no_sink(es: Seq<EventV>, j: int)
    requires
        forall|k: int| 0 <= k < es.len() ==> !((#[trigger] es[k]) is SinkWrite),
    ensures
        writes_to(es, j) =~= Seq::<u8>::empty(),
    decreases es.len(),
{
    if es.len() > 0 {
        assert(forall|k: int|
            0 <= k < es.drop_first().len() ==> !((#[trigger] es.drop_first()[k]) is SinkWrite));
        lemma_writes_to_no_sink(es.drop_first(), j);
    }
}

/// Classification emits no sink write.
proof fn lemma_classify_no_writes(b: u8)
    ensures
        forall|k: int| 0 <= k < classify_spec(b).1.len() ==> !((#[trigger] classify_spec(b).1[k]) is SinkWrite),
{
    let es = classify_spec(b).1;
    assert forall|k: int| 0 <= k < es.len() implies !((#[trigger] es[k]) is SinkWrite) by {
        assert(es.len() <= 1);
        assert(k == 0);
    }
}

/// Draining the recycle stack emits no sink write.
proof fn lemma_drain_no_writes(d: DecV, j: int)
    ensures
        writes_to(drain_spec(d).1, j) =~= Seq::<u8>::empty(),
    decreases d.recycle.len(),
{
    if !(d.core.mode is Idle) || d.recycle.len() == 0 {
    } else {
        let b = d.recycle.last();
        let (c, es) = classify_spec(b);
        let d1 = DecV { core: c, recycle: d.recycle.drop_last() };
        lemma_classify_no_writes(b);
        lemma_writes_to_no_sink(es, j);
        lemma_drain_no_writes(d1, j);
        lemma_writes_to_concat(es, drain_spec(d1).1, j);
    }
}

} // verus!

verus! {

/// What a single event orders written to sink `j`.
proof fn lemma_writes_to_single(e: EventV, j: int)
    ensures
        writes_to(seq![e], j) =~= (match e {
            EventV::SinkWrite { sink, data } => if sink as int == j {
                data
            } else {
                Seq::<u8>::empty()
            },
            _ => Seq::<u8>::empty(),
        }),
{
    reveal_with_fuel(writes_to, 2);
    assert(seq![e].drop_first() =~= Seq::<EventV>::empty());
    assert(writes_to(seq![e].drop_first(), j) =~= Seq::<u8>::empty());
    assert(seq![e][0] == e);
}

/// Events among which no sink write occurs leave every output stream as it
/// is.
proof fn lemma_streams_unchanged_without_writes(es: Seq<EventV>, outs: Seq<Output>)
    requires
        forall|k: int| 0 <= k < es.len() ==> !((#[trigger] es[k]) is SinkWrite),
    ensures
        forall|j: int|
            0 <= j < outs.len() ==> (#[trigger] outs[j]).output@ == outs[j].output@ + writes_to(
                es,
                j,
            ),
{
    assert forall|j: int| 0 <= j < outs.len() implies (#[trigger] outs[j]).output@ == outs[j].output@
        + writes_to(es, j) by {
        lemma_writes_to_no_sink(es, j);
        assert(outs[j].output@ + writes_to(es, j) =~= outs[j].output@);
    }
}

/// Fans a completed source packet out: records the packet event, then writes
/// the whole payload to every sink routed for `port`, in route order.
pub fn source_packet(
    software: bool,
    port: u8,
    payload: &Vec<u8>,
    routes: &Vec<Vec<usize>>,
    outputs: &mut Vec<Output>,
    events: &mut Vec<Event>,
)
    requires
        (port as int) < routes@.len(),
        forall|k: int|
            0 <= k < routes@[port as int]@.len() ==> (#[trigger] routes@[port as int]@[k])
                < old(outputs)@.len(),
    ensures
        final(outputs)@.len() == old(outputs)@.len(),
        events_view(final(events)@) =~= events_view(old(events)@) + seq![
            (EventV::Source { software, port, payload: payload@ })
        ] + write_events(routes@[port as int]@, payload@),
        forall|j: int|
            0 <= j < old(outputs)@.len() ==> (#[trigger] final(outputs)@[j]).ports == old(
                outputs,
            )@[j].ports && final(outputs)@[j].output@ == old(outputs)@[j].output@ + writes_to(
                write_events(routes@[port as int]@, payload@),
                j,
            ),
{
    let ghost route_v = routes@[port as int]@;
    let ghost ev0 = events@;
    let ghost out0 = outputs@;
    events.push(Event::Source { software, port, payload: copy_bytes(payload) });
    proof {
        lemma_events_view_push(ev0, events@.last());
        assert(events_view(events@) =~= events_view(ev0) + seq![
            (EventV::Source { software, port, payload: payload@ })
        ]);
    }
    let route_len: usize = routes[port as usize].len();
    let mut k: usize = 0;
    while k < route_len
        invariant
            k <= route_len,
            route_len == route_v.len(),
            route_v == routes@[port as int]@,
            (port as int) < routes@.len(),
            forall|m: int| 0 <= m < route_v.len() ==> (#[trigger] route_v[m]) < out0.len(),
            outputs@.len() == out0.len(),
            events_view(events@) =~= events_view(ev0) + seq![
                (EventV::Source { software, port, payload: payload@ })
            ] + write_events(route_v.take(k as int), payload@),
            forall|j: int|
                0 <= j < out0.len() ==> (#[trigger] outputs@[j]).ports == out0[j].ports
                    && outputs@[j].output@ == out0[j].output@ + writes_to(
                    write_events(route_v.take(k as int), payload@),
                    j,
                ),
        decreases route_len - k,
    {
        let ghost evp = events@;
        let ghost outp = outputs@;
        let j = routes[port as usize][k];
        outputs[j].output.write(payload.as_slice());
        events.push(Event::SinkWrite { sink: j, data: copy_bytes(payload) });
        k = k + 1;
        proof {
            let w = EventV::SinkWrite { sink: route_v[k - 1], data: payload@ };
            assert(write_events(route_v.take(k as int), payload@) =~= write_events(
                route_v.take(k - 1),
                payload@,
            ).push(w));
            lemma_events_view_push(evp, events@.last());
            assert(events_view(events@) =~= events_view(ev0) + seq![
                (EventV::Source { software, port, payload: payload@ })
            ] + write_events(route_v.take(k as int), payload@));
            assert forall|m: int| 0 <= m < out0.len() implies (#[trigger] outputs@[m]).ports
                == out0[m].ports && outputs@[m].output@ == out0[m].output@ + writes_to(
                write_events(route_v.take(k as int), payload@),
                m,
            ) by {
                lemma_writes_to_concat(write_events(route_v.take(k - 1), payload@), seq![w], m);
                assert(seq![w].drop_first() =~= Seq::<EventV>::empty());
                assert(write_events(route_v.take(k - 1), payload@) + seq![w] =~= write_events(
                    route_v.take(k as int),
                    payload@,
                ));
                lemma_writes_to_single(w, m);
                if m == j {
                    assert(writes_to(seq![w], m) =~= payload@);
                } else {
                    assert(writes_to(seq![w], m) =~= Seq::<u8>::empty());
                }
            }
        }
    }
    proof {
        assert(route_v.take(route_len as int) =~= route_v);
    }
}

impl Parser {
    /// True while recycled bytes remain to be re-classified.
    fn draining(&self) -> (r: bool)
        ensures
            r == (self.recycle@.len() > 0 && self.mode is Idle),
    {
        self.recycle.len() > 0 && matches!(self.mode, Mode::Idle)
    }

    /// Empties the payload buffer, handing its bytes back.
    fn take_payload(&mut self) -> (pl: Vec<u8>)
        ensures
            pl@ == old(self).payload@,
            final(self).payload@.len() == 0,
            final(self).mode == old(self).mode,
            final(self).recycle == old(self).recycle,
            final(self).outputs == old(self).outputs,
            final(self).routes == old(self).routes,
    {
        let mut pl: Vec<u8> = Vec::new();
        core::mem::swap(&mut pl, &mut self.payload);
        pl
    }

    /// Pushes the payload, last byte first, onto the recycle stack and
    /// empties it, so that popping yields the bytes in arrival order.
    fn recycle_payload(&mut self)
        ensures
            final(self).recycle@ == old(self).recycle@ + old(self).payload@.reverse(),
            final(self).payload@.len() == 0,
            final(self).mode == old(self).mode,
            final(self).outputs == old(self).outputs,
            final(self).routes == old(self).routes,
    {
        let mut i: usize = self.payload.len();
        while i > 0
            invariant
                i <= self.payload@.len(),
            self.payload == old(self).payload,
                self.mode == old(self).mode,
                self.outputs == old(self).outputs,
                self.routes == old(self).routes,
                self.recycle@ == old(self).recycle@ + old(self).payload@.skip(i as int).reverse(),
            decreases i,
        {
            i = i - 1;
            let b = self.payload[i];
            self.recycle.push(b);
            proof {
                assert(old(self).payload@.skip(i as int).reverse() =~= old(
                    self,
                ).payload@.skip(i + 1).reverse().push(old(self).payload@[i as int]));
                assert(self.recycle@ =~= old(self).recycle@ + old(self).payload@.skip(
                    i as int,
                ).reverse());
            }
        }
        self.payload.clear();
        proof {
            assert(old(self).payload@.skip(0) =~= old(self).payload@);
        }
    }

    /// Dispatches on a header byte, following `classify_spec`.
    fn classify(&mut self, byte: u8, events: &mut Vec<Event>)
        requires
            old(self).mode is Idle,
            old(self).payload@.len() == 0,
        ensures
            final(self).acc() == classify_spec(byte).0,
            mode_wf(final(self).mode, final(self).payload@),
            final(self).recycle == old(self).recycle,
            final(self).outputs == old(self).outputs,
            final(self).routes == old(self).routes,
            events_view(final(events)@) =~= events_view(old(events)@) + classify_spec(byte).1,
    {
        let ghost ev0 = events@;
        if byte == 0 {
            self.mode = Mode::Sync { zeros: 8 };
            proof {
                assert(events_view(events@) =~= events_view(ev0) + classify_spec(byte).1);
            }
        } else if byte == 0x70 {
            events.push(Event::Overflow);
            proof {
                lemma_events_view_push(ev0, Event::Overflow);
                assert(events_view(events@) =~= events_view(ev0) + classify_spec(byte).1);
            }
        } else if byte & 0x0b == 0x08 {
            let sh = (byte << 5) >> 7;
            let ex = (byte << 1) >> 5;
            if byte >> 7 == 0 {
                let pl: Vec<u8> = Vec::new();
                let ghost plv = pl@;
                events.push(extension_packet(sh, ex, pl));
                proof {
                    lemma_events_view_push(ev0, events@.last());
                    assert(events_view(events@) =~= events_view(ev0).push(
                        EventV::Extension { sh, ex, payload: plv },
                    ));
                    assert(events_view(events@) =~= events_view(ev0) + classify_spec(byte).1);
                }
            } else {
                self.mode = Mode::Ext { sh, ex };
                proof {
                    assert(events_view(events@) =~= events_view(ev0) + classify_spec(byte).1);
                }
            }
        } else if byte & 0x0b == 0 {
            if byte & 0x8f == 0 && byte & 0x70 != 0 && byte & 0x70 != 0x70 {
                let mut pl: Vec<u8> = Vec::new();
                pl.push((byte << 1) >> 5);
                let ghost plv = pl@;
                events.push(timestamp_packet(Timestamp::Local { tc: 0 }, pl));
                proof {
                    assert(plv =~= seq![(byte << 1) >> 5]);
                    lemma_events_view_push(ev0, events@.last());
                    assert(events_view(events@) =~= events_view(ev0) + classify_spec(byte).1);
                }
            } else if byte & 0xcf == 0xc0 {
                self.mode = Mode::Ts { ts: Timestamp::Local { tc: (byte << 2) >> 6 } };
                proof {
                    assert(events_view(events@) =~= events_view(ev0) + classify_spec(byte).1);
                }
            } else if byte == 0x94 {
                self.mode = Mode::Ts { ts: Timestamp::Global1 };
                proof {
                    assert(events_view(events@) =~= events_view(ev0) + classify_spec(byte).1);
                }
            } else if byte == 0xb4 {
                self.mode = Mode::Ts { ts: Timestamp::Global2 };
                proof {
                    assert(events_view(events@) =~= events_view(ev0) + classify_spec(byte).1);
                }
            } else {
                events.push(Event::InvalidHeader);
                proof {
                    lemma_events_view_push(ev0, Event::InvalidHeader);
                    assert(events_view(events@) =~= events_view(ev0) + classify_spec(byte).1);
                }
            }
        } else {
            let software = byte & 0x04 == 0;
            let port = byte >> 3;
            let size: u8 = if byte & 0x03 == 0x01 {
                1
            } else if byte & 0x03 == 0x02 {
                2
            } else {
                4
            };
            proof {
                assert((byte >> 3) < 32) by (bit_vector);
            }
            self.mode = Mode::Src { software, port, size };
            proof {
                assert(events_view(events@) =~= events_view(ev0) + classify_spec(byte).1);
            }
        }
    }
}

} // verus!

verus! {

impl Parser {
    /// Consumes one byte in the current mode, before any drain of the
    /// recycle stack; follows `feed_spec`.
    fn feed(&mut self, byte: u8, events: &mut Vec<Event>)
        requires
            old(self).wf_core(),
        ensures
            final(self).wf_core(),
            final(self).routes == old(self).routes,
            final(self).dec() == feed_spec(old(self).routes_v(), old(self).dec(), byte).0,
            events_view(final(events)@) =~= events_view(old(events)@) + feed_spec(
                old(self).routes_v(),
                old(self).dec(),
                byte,
            ).1,
            final(self).outputs@.len() == old(self).outputs@.len(),
            forall|j: int|
                0 <= j < old(self).outputs@.len() ==> (#[trigger] final(self).outputs@[j]).ports
                    == old(self).outputs@[j].ports && final(self).outputs@[j].output@ == old(
                    self,
                ).outputs@[j].output@ + writes_to(
                    feed_spec(old(self).routes_v(), old(self).dec(), byte).1,
                    j,
                ),
    {
        let ghost routes0 = self.routes_v();
        let ghost d0 = self.dec();
        let ghost ev0 = events@;
        let ghost out0 = self.outputs@;
        match self.mode {
            Mode::Idle => {
                self.classify(byte, events);
                proof {
                    let es = feed_spec(routes0, d0, byte).1;
                    assert(es == classify_spec(byte).1);
                    assert(self.dec() =~= feed_spec(routes0, d0, byte).0);
                    lemma_classify_no_writes(byte);
                    lemma_streams_unchanged_without_writes(es, self.outputs@);
                }
            }
            Mode::Sync { zeros } => {
                self.payload.push(byte);
                let tz64: u64 = byte.trailing_zeros() as u64;
                let z: u64 = if zeros <= u64::MAX - tz64 {
                    zeros + tz64
                } else {
                    u64::MAX
                };
                proof {
                    assert(z == sat64(zeros + vstd::std_specs::bits::u8_trailing_zeros(byte)));
                }
                if byte == 0 {
                    self.mode = Mode::Sync { zeros: z };
                    proof {
                        assert(self.dec() =~= feed_spec(routes0, d0, byte).0);
                        assert(events_view(events@) =~= events_view(ev0) + feed_spec(
                            routes0,
                            d0,
                            byte,
                        ).1);
                    }
                } else if z >= 47 {
                    events.push(synchronization_packet(z));
                    self.payload.clear();
                    self.recycle.clear();
                    self.mode = Mode::Idle;
                    proof {
                        assert(self.dec() =~= feed_spec(routes0, d0, byte).0);
                        lemma_events_view_push(ev0, events@.last());
                        assert(events_view(events@) =~= events_view(ev0) + feed_spec(
                            routes0,
                            d0,
                            byte,
                        ).1);
                    }
                } else {
                    events.push(Event::BadSynchronization { zeros: z });
                    self.recycle_payload();
                    self.mode = Mode::Idle;
                    proof {
                        assert(self.dec() =~= feed_spec(routes0, d0, byte).0);
                        lemma_events_view_push(ev0, events@.last());
                        assert(events_view(events@) =~= events_view(ev0) + feed_spec(
                            routes0,
                            d0,
                            byte,
                        ).1);
                    }
                }
                proof {
                    let es = feed_spec(routes0, d0, byte).1;
                    assert(forall|k: int|
                        0 <= k < es.len() ==> !((#[trigger] es[k]) is SinkWrite));
                    lemma_streams_unchanged_without_writes(es, self.outputs@);
                }
            }
            Mode::Ext { sh, ex } => {
                self.payload.push(byte);
                if byte >> 7 == 0 {
                    let pl = self.take_payload();
                    self.mode = Mode::Idle;
                    events.push(extension_packet(sh, ex, pl));
                    proof {
                        assert(self.dec() =~= feed_spec(routes0, d0, byte).0);
                        lemma_events_view_push(ev0, events@.last());
                        assert(events_view(events@) =~= events_view(ev0) + feed_spec(
                            routes0,
                            d0,
                            byte,
                        ).1);
                    }
                } else if self.payload.len() == 4 {
                    events.push(Event::BadExtension);
                    self.recycle_payload();
                    self.mode = Mode::Idle;
                    proof {
                        assert(self.dec() =~= feed_spec(routes0, d0, byte).0);
                        lemma_events_view_push(ev0, events@.last());
                        assert(events_view(events@) =~= events_view(ev0) + feed_spec(
                            routes0,
                            d0,
                            byte,
                        ).1);
                    }
                } else {
                    proof {
                        assert(self.dec() =~= feed_spec(routes0, d0, byte).0);
                        assert(events_view(events@) =~= events_view(ev0) + feed_spec(
                            routes0,
                            d0,
                            byte,
                        ).1);
                    }
                }
                proof {
                    let es = feed_spec(routes0, d0, byte).1;
                    assert(forall|k: int|
                        0 <= k < es.len() ==> !((#[trigger] es[k]) is SinkWrite));
                    lemma_streams_unchanged_without_writes(es, self.outputs@);
                }
            }
            Mode::Ts { ts } => {
                self.payload.push(byte);
                if byte >> 7 == 0 {
                    let pl = self.take_payload();
                    self.mode = Mode::Idle;
                    events.push(timestamp_packet(ts, pl));
                    proof {
                        assert(self.dec() =~= feed_spec(routes0, d0, byte).0);
                        lemma_events_view_push(ev0, events@.last());
                        assert(events_view(events@) =~= events_view(ev0) + feed_spec(
                            routes0,
                            d0,
                            byte,
                        ).1);
                    }
                } else if self.payload.len() == 4 {
                    events.push(Event::BadTimestamp);
                    self.recycle_payload();
                    self.mode = Mode::Idle;
                    proof {
                        assert(self.dec() =~= feed_spec(routes0, d0, byte).0);
                        lemma_events_view_push(ev0, events@.last());
                        assert(events_view(events@) =~= events_view(ev0) + feed_spec(
                            routes0,
                            d0,
                            byte,
                        ).1);
                    }
                } else {
                    proof {
                        assert(self.dec() =~= feed_spec(routes0, d0, byte).0);
                        assert(events_view(events@) =~= events_view(ev0) + feed_spec(
                            routes0,
                            d0,
                            byte,
                        ).1);
                    }
                }
                proof {
                    let es = feed_spec(routes0, d0, byte).1;
                    assert(forall|k: int|
                        0 <= k < es.len() ==> !((#[trigger] es[k]) is SinkWrite));
                    lemma_streams_unchanged_without_writes(es, self.outputs@);
                }
            }
            Mode::Src { software, port, size } => {
                self.payload.push(byte);
                if self.payload.len() >= size as usize {
                    let pl = self.take_payload();
                    self.mode = Mode::Idle;
                    source_packet(software, port, &pl, &self.routes, &mut self.outputs, events);
                    proof {
                        let es = feed_spec(routes0, d0, byte).1;
                        let we = write_events(route_of(routes0, port), pl@);
                        assert(route_of(routes0, port) == self.routes@[port as int]@);
                        assert(self.dec() =~= feed_spec(routes0, d0, byte).0);
                        assert(events_view(events@) =~= events_view(ev0) + seq![
                            (EventV::Source { software, port, payload: pl@ })
                        ] + we);
                        assert(es =~= seq![(EventV::Source { software, port, payload: pl@ })]
                            + we);
                        assert(events_view(ev0) + seq![
                            (EventV::Source { software, port, payload: pl@ })
                        ] + we =~= events_view(ev0) + (seq![
                            (EventV::Source { software, port, payload: pl@ })
                        ] + we));
                        assert(events_view(events@) =~= events_view(ev0) + es);
                        assert forall|j: int| 0 <= j < out0.len() implies (
                        #[trigger] self.outputs@[j]).ports == out0[j].ports
                            && self.outputs@[j].output@ == out0[j].output@ + writes_to(es, j) by {
                            lemma_writes_to_concat(
                                seq![(EventV::Source { software, port, payload: pl@ })],
                                we,
                                j,
                            );
                            lemma_writes_to_single(
                                EventV::Source { software, port, payload: pl@ },
                                j,
                            );
                            assert(writes_to(es, j) =~= writes_to(we, j));
                            assert(out0[j].output@ + writes_to(we, j) =~= out0[j].output@
                                + writes_to(es, j));
                        }
                    }
                } else {
                    proof {
                        assert(self.dec() =~= feed_spec(routes0, d0, byte).0);
                        let es = feed_spec(routes0, d0, byte).1;
                        assert(events_view(events@) =~= events_view(ev0) + es);
                        lemma_streams_unchanged_without_writes(es, self.outputs@);
                    }
                }
            }
        }
    }
}

} // verus!

verus! {

impl Parser {
    /// Feeds a byte to the parser.
    ///
    /// The byte is consumed in the current mode; afterwards, while the parser
    /// is idle and recycled bytes remain, the stack's top byte is popped and
    /// re-classified. The returned events describe everything the byte
    /// caused, in order; the caller logs them and mirrors each `SinkWrite`
    /// onto the real destination. The whole effect equals `pump_spec` on the
    /// previous state.
    pub fn pump(&mut self, byte: u8) -> (events: Vec<Event>)
        requires
            old(self).wf(),
        ensures
            final(self).wf(),
            final(self).routes == old(self).routes,
            final(self).dec() == pump_spec(old(self).routes_v(), old(self).dec(), byte).0,
            events_view(events@) =~= pump_spec(old(self).routes_v(), old(self).dec(), byte).1,
            final(self).outputs@.len() == old(self).outputs@.len(),
            forall|j: int|
                0 <= j < old(self).outputs@.len() ==> (#[trigger] final(self).outputs@[j]).ports
                    == old(self).outputs@[j].ports && final(self).outputs@[j].output@ == old(
                    self,
                ).outputs@[j].output@ + writes_to(
                    pump_spec(old(self).routes_v(), old(self).dec(), byte).1,
                    j,
                ),
    {
        let ghost routes0 = self.routes_v();
        let ghost d0 = self.dec();
        let mut events: Vec<Event> = Vec::new();
        self.feed(byte, &mut events);
        let ghost d1 = feed_spec(routes0, d0, byte).0;
        let ghost f_es = feed_spec(routes0, d0, byte).1;
        let ghost rv = self.routes;
        let ghost ov = self.outputs;
        proof {
            assert(self.dec() == d1);
            assert(events_view(events@) =~= f_es);
        }
        while self.draining()
            invariant
                self.wf_core(),
                self.routes == rv,
                self.outputs == ov,
                drain_spec(self.dec()).0 == drain_spec(d1).0,
                events_view(events@) + drain_spec(self.dec()).1 =~= f_es + drain_spec(d1).1,
            decreases self.recycle@.len(),
        {
            let ghost db = self.dec();
            let ghost evb = events@;
            let b = match self.recycle.pop() {
                Some(b) => b,
                None => {
                    proof {
                        assert(false);
                    }
                    0
                }
            };
            self.classify(b, &mut events);
            proof {
                let da = self.dec();
                assert(db.core.mode is Idle && db.recycle.len() > 0);
                assert(db.recycle.last() == b);
                assert(da =~= DecV {
                    core: classify_spec(b).0,
                    recycle: db.recycle.drop_last(),
                });
                assert(drain_spec(db).0 == drain_spec(da).0);
                assert(drain_spec(db).1 =~= classify_spec(b).1 + drain_spec(da).1);
                assert(events_view(events@) =~= events_view(evb) + classify_spec(b).1);
                assert((events_view(evb) + classify_spec(b).1) + drain_spec(da).1 =~= events_view(
                    evb,
                ) + (classify_spec(b).1 + drain_spec(da).1));
                assert(events_view(events@) + drain_spec(da).1 =~= f_es + drain_spec(d1).1);
            }
        }
        proof {
            assert(!(self.recycle@.len() > 0 && self.mode is Idle));
            assert(drain_spec(self.dec()).0 == self.dec() && drain_spec(self.dec()).1
                =~= Seq::<EventV>::empty());
            assert(events_view(events@) + Seq::<EventV>::empty() =~= events_view(events@));
            assert(events_view(events@) =~= f_es + drain_spec(d1).1);
            assert(self.dec() == pump_spec(routes0, d0, byte).0);
            assert(events_view(events@) =~= pump_spec(routes0, d0, byte).1);
            let es = pump_spec(routes0, d0, byte).1;
            assert forall|j: int| 0 <= j < old(self).outputs@.len() implies (
            #[trigger] self.outputs@[j]).ports == old(self).outputs@[j].ports
                && self.outputs@[j].output@ == old(self).outputs@[j].output@ + writes_to(
                es,
                j,
            ) by {
                lemma_writes_to_concat(f_es, drain_spec(d1).1, j);
                lemma_drain_no_writes(d1, j);
                assert(writes_to(drain_spec(d1).1, j) =~= Seq::<u8>::empty());
                assert(writes_to(f_es, j) + writes_to(drain_spec(d1).1, j) =~= writes_to(
                    f_es,
                    j,
                ));
                assert(es =~= f_es + drain_spec(d1).1);
                assert(writes_to(es, j) =~= writes_to(f_es, j));
            }
        }
        events
    }
}

} // verus!

verus! {

/// How often port `p` occurs in a selection.
pub open spec fn count_port(ports: Seq<u8>, p: int) -> nat
    decreases ports.len(),
{
    if ports.len() == 0 {
        0
    } else {
        count_port(ports.drop_last(), p) + (if ports.last() as int == p {
            1nat
        } else {
            0nat
        })
    }
}

/// The sinks output `j` contributes to port `p`'s route: `j` once for a
/// wildcard (empty) selection, else `j` once per occurrence of `p` in the
/// selection.
pub open spec fn entry_contrib(ports: Seq<u8>, p: int, j: usize) -> Seq<usize> {
    if ports.len() == 0 {
        seq![j]
    } else {
        Seq::new(count_port(ports, p), |i: int| j)
    }
}

/// The route-table entry for port `p`, built from the outputs' port
/// selections in order.
pub open spec fn table_spec(selects: Seq<Seq<u8>>, p: int) -> Seq<usize>
    decreases selects.len(),
{
    if selects.len() == 0 {
        Seq::<usize>::empty()
    } else {
        table_spec(selects.drop_last(), p) + entry_contrib(
            selects.last(),
            p,
            (selects.len() - 1) as usize,
        )
    }
}

/// The outputs' port selections, in order.
pub open spec fn selects_of(outputs: Seq<Output>) -> Seq<Seq<u8>> {
    outputs.map_values(|o: Output| o.ports@)
}

/// Every port any output selects is a valid stimulus port.
pub open spec fn outputs_ports_in_range(outputs: Seq<Output>) -> bool {
    forall|i: int|
        0 <= i < outputs.len() ==> crate::cli::ports_in_range((#[trigger] outputs[i]).ports@)
}

/// Every sink a route-table entry names is one of the outputs.
proof fn lemma_table_spec_bounds(selects: Seq<Seq<u8>>, p: int)
    ensures
        forall|k: int|
            0 <= k < table_spec(selects, p).len() ==> (#[trigger] table_spec(selects, p)[k])
                < selects.len(),
    decreases selects.len(),
{
    if selects.len() == 0 {
    } else {
        let prefix = table_spec(selects.drop_last(), p);
        let added = entry_contrib(selects.last(), p, (selects.len() - 1) as usize);
        lemma_table_spec_bounds(selects.drop_last(), p);
        assert forall|k: int|
            0 <= k < table_spec(selects, p).len() implies (#[trigger] table_spec(selects, p)[k])
            < selects.len() by {
            if k < prefix.len() {
                assert(table_spec(selects, p)[k] == prefix[k]);
            } else {
                assert(table_spec(selects, p)[k] == added[k - prefix.len()]);
                assert(added[k - prefix.len()] == (selects.len() - 1) as usize);
            }
        }
    }
}

/// Builds the route table: entry `p` lists, in input order, each output
/// whose specification selects port `p` — a wildcard entry selects every
/// port — once per selection.
pub fn outputs_map(outputs: &Vec<Output>) -> (routes: Vec<Vec<usize>>)
    requires
        outputs_ports_in_range(outputs@),
    ensures
        routes@.len() == PORTS_COUNT as int,
        forall|p: int|
            0 <= p < PORTS_COUNT as int ==> (#[trigger] routes@[p]@) == table_spec(
                selects_of(outputs@),
                p,
            ),
        forall|p: int, k: int|
            0 <= p < PORTS_COUNT as int && 0 <= k < routes@[p]@.len() ==> (
            #[trigger] routes@[p]@[k]) < outputs@.len(),
{
    let ghost sel = selects_of(outputs@);
    let mut routes: Vec<Vec<usize>> = Vec::new();
    let mut p: usize = 0;
    while p < PORTS_COUNT
        invariant
            p <= PORTS_COUNT,
            routes@.len() == p as int,
            forall|q: int| 0 <= q < p as int ==> (#[trigger] routes@[q]@).len() == 0,
        decreases PORTS_COUNT - p,
    {
        routes.push(Vec::new());
        p = p + 1;
    }
    let n: usize = outputs.len();
    let mut i: usize = 0;
    while i < n
        invariant
            i <= n,
            n == outputs@.len(),
            sel == selects_of(outputs@),
            sel.len() == n as int,
            outputs_ports_in_range(outputs@),
            routes@.len() == PORTS_COUNT as int,
            forall|q: int|
                0 <= q < PORTS_COUNT as int ==> (#[trigger] routes@[q]@) == table_spec(
                    sel.take(i as int),
                    q,
                ),
        decreases n - i,
    {
        let ghost routes_pre = routes@;
        let m: usize = outputs[i].ports.len();
        if m == 0 {
            let mut p: usize = 0;
            while p < PORTS_COUNT
                invariant
                    p <= PORTS_COUNT,
                    i < n,
                    n == outputs@.len(),
                    sel == selects_of(outputs@),
                    outputs@[i as int].ports@.len() == 0,
                    routes@.len() == PORTS_COUNT as int,
                    forall|q: int|
                        0 <= q < p as int ==> (#[trigger] routes@[q]@) == routes_pre[q]@.push(
                            i as usize,
                        ),
                    forall|q: int|
                        p as int <= q < PORTS_COUNT as int ==> (#[trigger] routes@[q]@)
                            == routes_pre[q]@,
                decreases PORTS_COUNT - p,
            {
                routes[p].push(i);
                p = p + 1;
            }
            proof {
                assert forall|q: int|
                    0 <= q < PORTS_COUNT as int implies (#[trigger] routes@[q]@) == table_spec(
                    sel.take(i + 1),
                    q,
                ) by {
                    assert(sel.take(i + 1).drop_last() =~= sel.take(i as int));
                    assert(sel.take(i + 1).last() == sel[i as int]);
                    assert(sel[i as int] == outputs@[i as int].ports@);
                    assert(entry_contrib(sel[i as int], q, i as usize) =~= seq![i as usize]);
                    assert(routes_pre[q]@ + seq![i as usize] =~= routes_pre[q]@.push(i as usize));
                }
            }
        } else {
            let ghost ports = outputs@[i as int].ports@;
            let mut k: usize = 0;
            while k < m
                invariant
                    k <= m,
                    i < n,
                    n == outputs@.len(),
                    sel == selects_of(outputs@),
                    ports == outputs@[i as int].ports@,
                    m == ports.len(),
                    m > 0,
                    outputs_ports_in_range(outputs@),
                    routes@.len() == PORTS_COUNT as int,
                    forall|q: int|
                        0 <= q < PORTS_COUNT as int ==> (#[trigger] routes@[q]@) == routes_pre[q]@
                            + Seq::new(count_port(ports.take(k as int), q), |x: int| i as usize),
                decreases m - k,
            {
                let port = outputs[i].ports[k];
                proof {
                    assert(crate::cli::ports_in_range(ports));
                    assert(ports[k as int] < PORTS_COUNT);
                }
                routes[port as usize].push(i);
                k = k + 1;
                proof {
                    assert forall|q: int|
                        0 <= q < PORTS_COUNT as int implies (#[trigger] routes@[q]@)
                        == routes_pre[q]@ + Seq::new(
                        count_port(ports.take(k as int), q),
                        |x: int| i as usize,
                    ) by {
                        assert(ports.take(k as int).drop_last() =~= ports.take(k - 1));
                        assert(ports.take(k as int).last() == ports[k - 1]);
                        let c0 = count_port(ports.take(k - 1), q);
                        let c1 = count_port(ports.take(k as int), q);
                        if ports[k - 1] as int == q {
                            assert(c1 == c0 + 1);
                            assert(Seq::new(c1, |x: int| i as usize) =~= Seq::new(
                                c0,
                                |x: int| i as usize,
                            ).push(i as usize));
                            assert(routes_pre[q]@ + Seq::new(c1, |x: int| i as usize)
                                =~= (routes_pre[q]@ + Seq::new(c0, |x: int| i as usize)).push(
                                i as usize,
                            ));
                        } else {
                            assert(c1 == c0);
                        }
                    }
                }
            }
            proof {
                assert forall|q: int|
                    0 <= q < PORTS_COUNT as int implies (#[trigger] routes@[q]@) == table_spec(
                    sel.take(i + 1),
                    q,
                ) by {
                    assert(ports.take(m as int) =~= ports);
                    assert(sel.take(i + 1).drop_last() =~= sel.take(i as int));
                    assert(sel.take(i + 1).last() == sel[i as int]);
                    assert(sel[i as int] == ports);
                    assert(entry_contrib(ports, q, i as usize) == Seq::new(
                        count_port(ports, q),
                        |x: int| i as usize,
                    ));
                }
            }
        }
        i = i + 1;
    }
    proof {
        assert(sel.take(n as int) =~= sel);
        assert forall|p0: int, k: int|
            0 <= p0 < PORTS_COUNT as int && 0 <= k < routes@[p0]@.len() implies (
        #[trigger] routes@[p0]@[k]) < outputs@.len() by {
            lemma_table_spec_bounds(sel, p0);
        }
    }
    routes
}

impl Parser {
    /// Creates a new [`Parser`] over opened outputs: builds the route table
    /// and starts idle with an empty recycle stack.
    pub fn new(outputs: Vec<Output>) -> (p: Parser)
        requires
            outputs_ports_in_range(outputs@),
        ensures
            p.wf(),
            p.outputs == outputs,
            p.mode is Idle,
            p.payload@.len() == 0,
            p.recycle@.len() == 0,
            forall|q: int|
                0 <= q < PORTS_COUNT as int ==> (#[trigger] p.routes_v()[q]) == table_spec(
                    selects_of(outputs@),
                    q,
                ),
    {
        let routes = outputs_map(&outputs);
        let p = Parser {
            outputs,
            routes,
            mode: Mode::Idle,
            payload: Vec::new(),
            recycle: Vec::new(),
        };
        proof {
            assert forall|q: int| 0 <= q < PORTS_COUNT as int implies (#[trigger] p.routes_v()[q])
                == table_spec(selects_of(p.outputs@), q) by {
                assert(p.routes_v()[q] == p.routes@[q]@);
            }
        }
        p
    }
}

} // verus!

verus! {

/// Classification emits no synchronization event: a synchronization packet
/// is only recognized after its zero run is scanned byte by byte.
proof fn lemma_classify_no_sync(b: u8)
    ensures
        forall|k: int|
            0 <= k < classify_spec(b).1.len() ==> !((#[trigger] classify_spec(b).1[k])
                is Synchronization),
{
    let es = classify_spec(b).1;
    assert forall|k: int| 0 <= k < es.len() implies !((#[trigger] es[k]) is Synchronization) by {
        assert(es.len() <= 1);
        assert(k == 0);
    }
}

/// Draining the recycle stack emits neither writes nor synchronization
/// events.
proof fn lemma_drain_headers_only(d: DecV)
    ensures
        forall|k: int|
            0 <= k < drain_spec(d).1.len() ==> !((#[trigger] drain_spec(d).1[k]) is SinkWrite)
                && !(drain_spec(d).1[k] is Synchronization),
    decreases d.recycle.len(),
{
    if !(d.core.mode is Idle) || d.recycle.len() == 0 {
    } else {
        let b = d.recycle.last();
        let es = classify_spec(b).1;
        let d1 = DecV { core: classify_spec(b).0, recycle: d.recycle.drop_last() };
        lemma_classify_no_writes(b);
        lemma_classify_no_sync(b);
        lemma_drain_headers_only(d1);
        assert forall|k: int| 0 <= k < drain_spec(d).1.len() implies !((
        #[trigger] drain_spec(d).1[k]) is SinkWrite) && !(drain_spec(d).1[k] is Synchronization) by {
            if k < es.len() {
                assert(drain_spec(d).1[k] == es[k]);
            } else {
                assert(drain_spec(d).1[k] == drain_spec(d1).1[k - es.len()]);
            }
        }
    }
}

/// A header byte whose low two bits are zero goes to the protocol branch,
/// never the source branch: a source packet's size field is always 1, 2 or
/// 4 bytes, and no source packet with a zero size can arise.
pub proof fn lemma_source_size_never_zero(h: u8)
    ensures
        classify_spec(h).0.mode is Src <==> is_source_header(h),
        classify_spec(h).0.mode matches Mode::Src { software, port, size } ==> h & 0x03 != 0 && (
        size == 1 || size == 2 || size == 4),
        h & 0x03 == 0 ==> !(classify_spec(h).0.mode is Src),
{
    assert((0x70u8 & 0x0bu8) == 0) by (bit_vector);
    assert(h & 0x0b != 0 ==> h != 0) by (bit_vector);
    if h != 0 && h != 0x70 && h & 0x0b != 0x08 && h & 0x0b != 0 {
        assert(h & 0x03 != 0) by (bit_vector)
            requires
                h & 0x0b != 0x08 && h & 0x0b != 0,
        ;
    }
    if h & 0x03 == 0 {
        assert(h & 0x0b == 0 || h & 0x0b == 0x08) by (bit_vector)
            requires
                h & 0x03 == 0,
        ;
    }
}

/// The five-bit port field cannot name a port at or above the ports bound:
/// fan-out needs no bounds check beyond the table's size.
pub proof fn lemma_port_field_in_range(h: u8)
    ensures
        (h >> 3) < PORTS_COUNT as u8,
        classify_spec(h).0.mode matches Mode::Src { software, port, size } ==> (port as int)
            < PORTS_COUNT as int,
{
    assert((h >> 3) < 32) by (bit_vector);
}

/// A zero run ended by a nonzero byte synchronizes exactly when it counts at
/// least 47 zeros; with fewer the scan is malformed and its whole payload,
/// terminator included, is recycled.
pub proof fn lemma_synchronization_threshold(
    routes: Seq<Seq<usize>>,
    d: DecV,
    b: u8,
    zeros: u64,
)
    requires
        d.core.mode == (Mode::Sync { zeros }),
        b != 0,
        zeros + vstd::std_specs::bits::u8_trailing_zeros(b) <= u64::MAX,
    ensures
        ({
            let z = (zeros + vstd::std_specs::bits::u8_trailing_zeros(b)) as u64;
            &&& z >= 47 ==> feed_spec(routes, d, b).1 =~= seq![(EventV::Synchronization { zeros: z })]
                && feed_spec(routes, d, b).0.recycle.len() == 0
            &&& z < 47 ==> feed_spec(routes, d, b).1 =~= seq![
                (EventV::BadSynchronization { zeros: z })
            ] && feed_spec(routes, d, b).0.recycle == d.recycle + d.core.payload.push(b).reverse()
        }),
{
}

/// A continuation payload reaching four bytes, all with the high bit set, is
/// malformed: the packet is dropped and its payload recycled.
pub proof fn lemma_long_timestamp_overflow_recycles(
    routes: Seq<Seq<usize>>,
    d: DecV,
    b: u8,
    ts: Timestamp,
)
    requires
        d.core.mode == (Mode::Ts { ts }),
        d.core.payload.len() == 3,
        b >> 7 != 0,
    ensures
        feed_spec(routes, d, b).1 =~= seq![EventV::BadTimestamp],
        feed_spec(routes, d, b).0.recycle == d.recycle + d.core.payload.push(b).reverse(),
        feed_spec(routes, d, b).0.core == idle_core(),
{
}

/// A pump that recognizes a synchronization packet leaves the recycle stack
/// empty: resynchronization discards any bytes still awaiting
/// re-classification.
pub proof fn lemma_synchronization_clears_recycle(routes: Seq<Seq<usize>>, d: DecV, b: u8)
    requires
        exists|k: int|
            0 <= k < pump_spec(routes, d, b).1.len() && (#[trigger] pump_spec(routes, d, b).1[k])
                is Synchronization,
    ensures
        pump_spec(routes, d, b).0.recycle.len() == 0,
{
    let f = feed_spec(routes, d, b);
    let k = choose|k: int|
        0 <= k < pump_spec(routes, d, b).1.len() && (#[trigger] pump_spec(routes, d, b).1[k])
            is Synchronization;
    lemma_drain_headers_only(f.0);
    assert(k < f.1.len() && f.1[k] is Synchronization) by {
        if k >= f.1.len() {
            assert(pump_spec(routes, d, b).1[k] == drain_spec(f.0).1[k - f.1.len()]);
        } else {
            assert(pump_spec(routes, d, b).1[k] == f.1[k]);
        }
    }
    match d.core.mode {
        Mode::Idle => {
            lemma_classify_no_sync(b);
            assert(false);
        }
        Mode::Sync { zeros } => {
            if b == 0 {
                assert(false);
            } else {
                let z = sat64(zeros + vstd::std_specs::bits::u8_trailing_zeros(b));
                if z >= 47 {
                    assert(f.0.recycle.len() == 0);
                    assert(drain_spec(f.0).0 == f.0);
                } else {
                    assert(f.1[k] == (EventV::BadSynchronization { zeros: z }));
                    assert(false);
                }
            }
        }
        Mode::Ext { sh, ex } => {
            assert(false);
        }
        Mode::Ts { ts } => {
            assert(false);
        }
        Mode::Src { software, port, size } => {
            let pl = d.core.payload.push(b);
            if pl.len() >= size as int {
                assert forall|m: int| 0 <= m < f.1.len() implies !((#[trigger] f.1[m])
                    is Synchronization) by {
                    if m == 0 {
                    } else {
                        assert(f.1[m] == write_events(route_of(routes, port), pl)[m - 1]);
                    }
                }
                assert(false);
            } else {
                assert(false);
            }
        }
    }
}

/// Every write a pump orders carries the payload of a source packet
/// recognized earlier in the same pump, and goes to a sink that packet's
/// port routes to: nothing is ever written without a recognized source
/// packet.
pub proof fn lemma_writes_are_routed_source_payloads(routes: Seq<Seq<usize>>, d: DecV, b: u8)
    ensures
        forall|k: int|
            0 <= k < pump_spec(routes, d, b).1.len() ==> ((#[trigger] pump_spec(
                routes,
                d,
                b,
            ).1[k]) matches EventV::SinkWrite { sink, data } ==> exists|m: int|
                0 <= m < k && ((#[trigger] pump_spec(routes, d, b).1[m]) matches EventV::Source {
                    software,
                    port,
                    payload,
                } && data == payload && route_of(routes, port).contains(sink))),
{
    let f = feed_spec(routes, d, b);
    let es = pump_spec(routes, d, b).1;
    lemma_drain_headers_only(f.0);
    assert forall|k: int| 0 <= k < es.len() implies ((#[trigger] es[k]) matches EventV::SinkWrite {
        sink,
        data,
    } ==> exists|m: int|
        0 <= m < k && ((#[trigger] es[m]) matches EventV::Source { software, port, payload }
            && data == payload && route_of(routes, port).contains(sink))) by {
        if es[k] is SinkWrite {
            assert(k < f.1.len() && f.1[k] is SinkWrite) by {
                if k >= f.1.len() {
                    assert(es[k] == drain_spec(f.0).1[k - f.1.len()]);
                }
            }
            assert(es[k] == f.1[k]);
            match d.core.mode {
                Mode::Src { software, port, size } => {
                    let pl = d.core.payload.push(b);
                    let route = route_of(routes, port);
                    assert(pl.len() >= size as int) by {
                        if pl.len() < size as int {
                            assert(f.1.len() == 0);
                        }
                    }
                    assert(f.1[0] == (EventV::Source { software, port, payload: pl }));
                    assert(k >= 1);
                    assert(f.1[k] == write_events(route, pl)[k - 1]);
                    assert(write_events(route, pl)[k - 1] == (EventV::SinkWrite {
                        sink: route[k - 1],
                        data: pl,
                    }));
                    assert(route.contains(route[k - 1]));
                    assert(es[0] == f.1[0]);
                    assert(0 < k && ((es[0]) matches EventV::Source { software, port, payload }
                        && pl == payload && route_of(routes, port).contains(route[k - 1])));
                }
                Mode::Idle => {
                    lemma_classify_no_writes(b);
                    assert(false);
                }
                Mode::Sync { zeros } => {
                    assert(false);
                }
                Mode::Ext { sh, ex } => {
                    assert(false);
                }
                Mode::Ts { ts } => {
                    assert(false);
                }
            }
        }
    }
}

/// A drain removes bytes only from the top of the recycle stack: what
/// remains is an untouched prefix of the stack, so each recycled byte is
/// popped, and with it classified, at most once, and no byte re-enters the
/// stack while it drains.
pub proof fn lemma_drain_consumes_a_suffix(d: DecV)
    ensures
        drain_spec(d).0.recycle.len() <= d.recycle.len(),
        drain_spec(d).0.recycle == d.recycle.take(drain_spec(d).0.recycle.len() as int),
    decreases d.recycle.len(),
{
    if !(d.core.mode is Idle) || d.recycle.len() == 0 {
        assert(d.recycle.take(d.recycle.len() as int) =~= d.recycle);
    } else {
        let b = d.recycle.last();
        let d1 = DecV { core: classify_spec(b).0, recycle: d.recycle.drop_last() };
        lemma_drain_consumes_a_suffix(d1);
        let l = drain_spec(d1).0.recycle.len();
        assert(d1.recycle.take(l as int) =~= d.recycle.take(l as int));
    }
}

} // verus!

verus! {

/// The events of classifying each byte of `bs` once, in order.
pub open spec fn classify_chain_events(bs: Seq<u8>) -> Seq<EventV>
    decreases bs.len(),
{
    if bs.len() == 0 {
        Seq::<EventV>::empty()
    } else {
        classify_spec(bs[0]).1 + classify_chain_events(bs.drop_first())
    }
}

/// A drain processes each recycled byte it removes exactly once: its events
/// are precisely one classification per popped byte, in arrival order (the
/// reverse of the removed stack suffix), and nothing else.
pub proof fn lemma_drain_processes_each_byte_once(d: DecV)
    ensures
        drain_spec(d).1 =~= classify_chain_events(
            d.recycle.skip(drain_spec(d).0.recycle.len() as int).reverse(),
        ),
    decreases d.recycle.len(),
{
    if !(d.core.mode is Idle) || d.recycle.len() == 0 {
        assert(d.recycle.skip(d.recycle.len() as int).reverse() =~= Seq::<u8>::empty());
    } else {
        let b = d.recycle.last();
        let d1 = DecV { core: classify_spec(b).0, recycle: d.recycle.drop_last() };
        lemma_drain_consumes_a_suffix(d1);
        lemma_drain_processes_each_byte_once(d1);
        let l = drain_spec(d1).0.recycle.len() as int;
        assert(drain_spec(d).0 == drain_spec(d1).0);
        let popped = d.recycle.skip(l).reverse();
        let rest = d1.recycle.skip(l).reverse();
        assert(popped =~= seq![b] + rest);
        assert((seq![b] + rest)[0] == b);
        assert((seq![b] + rest).drop_first() =~= rest);
        assert(classify_chain_events(popped) =~= classify_spec(b).1 + classify_chain_events(rest));
    }
}

} // verus!

verus! {

/// Consuming one byte grows the recycle stack by at most five bytes — the
/// longest payload a malformed packet can recycle (a failed
/// synchronization's zero bytes and terminator; continuation payloads
/// recycle at most four) — and only when the pump reports a malformation;
/// otherwise the stack can only shrink.
pub proof fn lemma_recycle_growth_bounded(routes: Seq<Seq<usize>>, d: DecV, b: u8)
    requires
        mode_wf(d.core.mode, d.core.payload),
    ensures
        pump_spec(routes, d, b).0.recycle.len() <= d.recycle.len() + 5,
        (forall|k: int|
            0 <= k < pump_spec(routes, d, b).1.len() ==> !((#[trigger] pump_spec(
                routes,
                d,
                b,
            ).1[k]) is BadSynchronization) && !(pump_spec(routes, d, b).1[k] is BadExtension)
                && !(pump_spec(routes, d, b).1[k] is BadTimestamp)) ==> pump_spec(
            routes,
            d,
            b,
        ).0.recycle.len() <= d.recycle.len(),
{
    let f = feed_spec(routes, d, b);
    let es = pump_spec(routes, d, b).1;
    lemma_drain_consumes_a_suffix(f.0);
    assert(pump_spec(routes, d, b).0.recycle.len() <= f.0.recycle.len());
    match d.core.mode {
        Mode::Idle => {
        }
        Mode::Sync { zeros } => {
            if b != 0 {
                let z = sat64(zeros + vstd::std_specs::bits::u8_trailing_zeros(b));
                if z < 47 {
                    let len_pl = d.core.payload.len();
                    assert(zeros <= z);
                    assert(8 + 8 * len_pl as int <= u64::MAX as int);
                    assert(len_pl <= 4);
                    assert(f.0.recycle.len() == d.recycle.len() + len_pl + 1);
                    assert(f.1[0] is BadSynchronization);
                    assert(es[0] is BadSynchronization);
                }
            }
        }
        Mode::Ext { sh, ex } => {
            let pl = d.core.payload.push(b);
            if b >> 7 != 0 && pl.len() >= 4 {
                assert(f.0.recycle.len() == d.recycle.len() + pl.len());
                assert(f.1[0] is BadExtension);
                assert(es[0] is BadExtension);
            }
        }
        Mode::Ts { ts } => {
            let pl = d.core.payload.push(b);
            if b >> 7 != 0 && pl.len() >= 4 {
                assert(f.0.recycle.len() == d.recycle.len() + pl.len());
                assert(f.1[0] is BadTimestamp);
                assert(es[0] is BadTimestamp);
            }
        }
        Mode::Src { software, port, size } => {
        }
    }
}

} // verus!
