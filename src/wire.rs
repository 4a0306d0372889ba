//! The vocabulary shared by the engine and the pin layer, and the model of
//! what goes over the wire.
use vstd::prelude::*;

verus! {

/// One of the two lines of the bus.
#[derive(Clone, Copy, PartialEq, Eq, Debug, Structural)]
pub enum Line {
    Clock,
    Data,
}

/// One step that the pin layer carries out for the engine.
#[derive(Clone, Copy, PartialEq, Eq, Debug, Structural)]
pub enum Action {
    /// Switch the line to output and drive it to 0.
    Pull(Line),
    /// Switch the line to input, so that the pull-up or a peer sets its level.
    Release(Line),
    /// Read the line's level and hand it back.
    Sample(Line),
    /// Block for this many microseconds.
    Delay(u64),
}

/// What happened on the bus, at the level of bits and conditions.
#[derive(Clone, Copy, PartialEq, Eq, Debug, Structural)]
pub enum BusEvent {
    /// The data line was released and read back at this level (0 or 1).
    Probe(u8),
    /// The recovery sequence for a data line held low was run.
    Recovery,
    /// A start condition: data pulled low while the clock was released.
    Start,
    /// A stop condition: data released while the clock was released.
    Stop,
    /// The master put this bit on the data line for one clock.
    Sent(u8),
    /// The master read this bit off the data line during one clock.
    Received(u8),
}

/// How long a clock held low by a peer is waited for, once, in microseconds.
pub const STRETCH_WAIT_US: u64 = 2000000;

/// The pause between two recovery bursts, in microseconds.
pub const RECOVERY_PAUSE_US: u64 = 10000;

/// The most recovery bursts that are sent.
pub const RECOVERY_BURSTS: u64 = 100;

/// The clock pulses in one recovery burst.
pub const PULSES_PER_BURST: u64 = 10;

/// The pin layer accepts every action.
pub open spec fn serves<F: Fn(Action) -> Result<u8, E>, E>(io: &F) -> bool {
    forall|a: Action| #[trigger] io.requires((a,))
}

/// The pin layer never reports a failure.
pub open spec fn never_fails<F: Fn(Action) -> Result<u8, E>, E>(io: &F) -> bool {
    forall|a: Action, r: Result<u8, E>| #[trigger] io.ensures((a,), r) ==> r is Ok
}

/// Whether `line` is released once `a` has been carried out, given whether it
/// was before.
pub open spec fn released_after(a: Action, line: Line, was: bool) -> bool {
    match a {
        Action::Pull(l) => if l == line { false } else { was },
        Action::Release(l) => if l == line { true } else { was },
        _ => was,
    }
}

/// Whether `line` is released after the actions `ops`, starting from an idle
/// bus where both lines are inputs.
pub open spec fn released(ops: Seq<Action>, line: Line) -> bool
    decreases ops.len(),
{
    if ops.len() == 0 {
        true
    } else {
        released_after(ops.last(), line, released(ops.drop_last(), line))
    }
}

/// How many times `line` was pulled low in `ops`.
pub open spec fn pulls(ops: Seq<Action>, line: Line) -> nat
    decreases ops.len(),
{
    if ops.len() == 0 {
        0
    } else {
        pulls(ops.drop_last(), line) + if ops.last() == Action::Pull(line) { 1nat } else { 0nat }
    }
}

/// Drive a line low and hold it for half a bit period.
pub open spec fn pull_ops(line: Line, h: u64) -> Seq<Action> {
    seq![Action::Pull(line), Action::Delay(h)]
}

/// Let a line go, wait half a bit period, and read it.
pub open spec fn release_ops(line: Line, h: u64) -> Seq<Action> {
    seq![Action::Release(line), Action::Delay(h), Action::Sample(line)]
}

/// Let the clock go and give a peer that holds it low one long wait.
pub open spec fn wait_clock_ops(h: u64, stretched: bool) -> Seq<Action> {
    if stretched {
        seq![
            Action::Release(Line::Clock),
            Action::Delay(h),
            Action::Sample(Line::Clock),
            Action::Delay(STRETCH_WAIT_US),
            Action::Delay(h),
        ]
    } else {
        seq![
            Action::Release(Line::Clock),
            Action::Delay(h),
            Action::Sample(Line::Clock),
            Action::Delay(h),
        ]
    }
}

/// One bit from the master: the data line is set while the clock is low,
/// then the clock is let go and pulled again.
pub open spec fn write_bit_ops(h: u64, bit: u8, stretched: bool) -> Seq<Action> {
    (if bit == 1 { release_ops(Line::Data, h) } else { pull_ops(Line::Data, h) })
        + wait_clock_ops(h, stretched) + pull_ops(Line::Clock, h) + pull_ops(Line::Data, h)
}

/// One bit to the master: the data line is let go, the clock is let go, the
/// data line is read, then both are pulled again.
pub open spec fn read_bit_ops(h: u64, stretched: bool) -> Seq<Action> {
    release_ops(Line::Data, h) + wait_clock_ops(h, stretched) + seq![Action::Sample(Line::Data)]
        + pull_ops(Line::Clock, h) + pull_ops(Line::Data, h)
}

/// Bit `i` of `b`, counting from the most significant one.
pub open spec fn bit_at(b: u8, i: int) -> u8 {
    (b >> ((7 - i) as u8)) & 1u8
}

/// The acknowledgement bit: 0 to ask for more, 1 to end.
pub open spec fn ack_bit(send_ack: bool) -> u8 {
    if send_ack {
        0
    } else {
        1
    }
}

/// A byte sent by the master, most significant bit first, then the bit that
/// the peer answered with.
pub open spec fn sent_byte(b: u8, ack: u8) -> Seq<BusEvent> {
    Seq::new(8, |i: int| BusEvent::Sent(bit_at(b, i))).push(BusEvent::Received(ack))
}

/// A byte read by the master, most significant bit first, then the
/// acknowledgement bit that the master sent.
pub open spec fn received_byte(b: u8, send_ack: bool) -> Seq<BusEvent> {
    Seq::new(8, |i: int| BusEvent::Received(bit_at(b, i))).push(BusEvent::Sent(ack_bit(send_ack)))
}

/// A start, after a recovery where the data line was found low.
pub open spec fn start_events(probe: u8) -> Seq<BusEvent> {
    seq![BusEvent::Probe(probe)] + (if probe == 0 { seq![BusEvent::Recovery] } else { seq![] })
        + seq![BusEvent::Start]
}

/// A stop, followed by a recovery where the data line stayed low.
pub open spec fn stop_events(probe: u8) -> Seq<BusEvent> {
    seq![BusEvent::Stop, BusEvent::Probe(probe)] + (if probe == 0 {
        seq![BusEvent::Recovery]
    } else {
        seq![]
    })
}

/// The start condition on the wire: the clock is let go, then the data line
/// and after it the clock are pulled low.
pub open spec fn start_condition_ops(h: u64, stretched: bool) -> Seq<Action> {
    wait_clock_ops(h, stretched) + pull_ops(Line::Data, h) + pull_ops(Line::Clock, h)
}

/// The stop condition on the wire: the clock is let go, then the data line.
pub open spec fn stop_condition_ops(h: u64, stretched: bool) -> Seq<Action> {
    wait_clock_ops(h, stretched) + release_ops(Line::Data, h)
}

/// The first byte of a transfer: the 7-bit address, then 1 to read or 0 to
/// write. The top bit of `address` falls off.
pub open spec fn address_byte(address: u8, read: bool) -> u8 {
    (address << 1u8) | (if read { 1u8 } else { 0u8 })
}

/// Bytes sent by the master, each followed by the peer's answer: the one in
/// `acks` at the same place.
pub open spec fn sent_bytes(bytes: Seq<u8>, acks: Seq<u8>) -> Seq<BusEvent>
    decreases bytes.len(),
{
    if bytes.len() == 0 {
        seq![]
    } else {
        sent_bytes(bytes.drop_last(), acks.drop_last()) + sent_byte(bytes.last(), acks.last())
    }
}

/// The first `vals.len()` bytes of a read of `total` bytes: each one is
/// acknowledged but the last of the read.
pub open spec fn received_bytes(vals: Seq<u8>, total: nat) -> Seq<BusEvent>
    decreases vals.len(),
{
    if vals.len() == 0 {
        seq![]
    } else {
        received_bytes(vals.drop_last(), total) + received_byte(vals.last(), vals.len() < total)
    }
}

/// A write transfer: start, address, the bytes, stop. `probes` are the two
/// levels read off the data line by the start and the stop, `acks` the
/// answers to the address and to each byte.
pub open spec fn write_events(address: u8, bytes: Seq<u8>, probes: Seq<u8>, acks: Seq<u8>) -> Seq<BusEvent> {
    start_events(probes[0]) + sent_byte(address_byte(address, false), acks[0]) + sent_bytes(
        bytes,
        acks.skip(1),
    ) + stop_events(probes[1])
}

/// A read transfer of `vals`: start, address, the bytes read, stop.
pub open spec fn read_events(address: u8, vals: Seq<u8>, probes: Seq<u8>, ack: u8) -> Seq<BusEvent> {
    start_events(probes[0]) + sent_byte(address_byte(address, true), ack) + received_bytes(
        vals,
        vals.len(),
    ) + stop_events(probes[1])
}

/// A combined transfer: start, address to write, `bytes`, a repeated start,
/// address to read, the bytes read `vals`, stop. `probes` holds the levels
/// read by the two starts and the stop; `acks` the answers to the first
/// address, to each written byte, and to the second address.
pub open spec fn write_read_events(
    address: u8,
    bytes: Seq<u8>,
    vals: Seq<u8>,
    probes: Seq<u8>,
    acks: Seq<u8>,
) -> Seq<BusEvent> {
    start_events(probes[0]) + sent_byte(address_byte(address, false), acks[0]) + sent_bytes(
        bytes,
        acks.subrange(1, bytes.len() as int + 1),
    ) + start_events(probes[1]) + sent_byte(address_byte(address, true), acks[bytes.len() as int + 1])
        + received_bytes(vals, vals.len()) + stop_events(probes[2])
}

/// The error `e` is one that the pin layer reported.
pub open spec fn from_io<F: Fn(Action) -> Result<u8, E>, E>(io: &F, e: E) -> bool {
    exists|a: Action| #[trigger] io.ensures((a,), Err::<u8, E>(e))
}

/// The level of a line as one bit: any non-zero reading is high.
pub open spec fn level_bit(v: u8) -> u8 {
    if v == 0 {
        0
    } else {
        1
    }
}

/// How many actions the wait for the clock takes.
pub open spec fn wait_len(stretched: bool) -> int {
    if stretched {
        5
    } else {
        4
    }
}

/// One recovery pulse: the clock pulled low, then let go and read.
pub open spec fn pulse_ops(h: u64) -> Seq<Action> {
    pull_ops(Line::Clock, h) + release_ops(Line::Clock, h)
}

/// `n` recovery pulses.
pub open spec fn pulses(h: u64, n: nat) -> Seq<Action>
    decreases n,
{
    if n == 0 {
        seq![]
    } else {
        pulses(h, (n - 1) as nat) + pulse_ops(h)
    }
}

/// One burst of recovery pulses, followed by a pause and a look at the
/// data line.
pub open spec fn burst_ops(h: u64) -> Seq<Action> {
    pulses(h, PULSES_PER_BURST as nat) + seq![Action::Delay(RECOVERY_PAUSE_US), Action::Sample(Line::Data)]
}

/// The first `k` bursts of a recovery.
pub open spec fn bursts(h: u64, k: nat) -> Seq<Action>
    decreases k,
{
    if k == 0 {
        seq![]
    } else {
        bursts(h, (k - 1) as nat) + burst_ops(h)
    }
}

/// How many actions `k` bursts take.
pub open spec fn bursts_len(k: nat) -> int {
    52 * (k as int)
}

/// A whole recovery of `k` bursts: the data line let go and left as an
/// input, the bursts, both lines pulled low, and a stop condition.
pub open spec fn recovery_ops(h: u64, k: nat, stretched: bool) -> Seq<Action> {
    release_ops(Line::Data, h) + seq![Action::Release(Line::Data)] + bursts(h, k) + pull_ops(Line::Clock, h)
        + pull_ops(Line::Data, h) + stop_condition_ops(h, stretched)
}

/// Where, in a recovery starting at `p`, the data line is read after burst `j`.
pub open spec fn burst_look(p: int, j: int) -> int {
    p + 4 + 52 * j + 51
}

/// A recovery of `k` bursts starts at `p` of the log `ops` with replies
/// `rep`: the bursts went on while the data line read low after each, and
/// stopped at the first burst after which it read high, or after the last
/// burst there can be.
pub open spec fn recovery_fits(h: u64, ops: Seq<Action>, rep: Seq<u8>, p: int, k: nat) -> bool {
    let s = rep[p + 4 + bursts_len(k) + 6] == 0;
    let seg = recovery_ops(h, k, s);
    &&& 1 <= k <= RECOVERY_BURSTS
    &&& 0 <= p
    &&& p + seg.len() <= ops.len()
    &&& ops.subrange(p, p + seg.len()) == seg
    &&& forall|j: int| 0 <= j < k - 1 ==> rep[#[trigger] burst_look(p, j)] == 0
    &&& k < RECOVERY_BURSTS ==> rep[burst_look(p, k - 1)] != 0
}

/// The actions that event `e` stands for when it starts at `p`, where the
/// replies `rep` decide whether the clock was held low.
pub open spec fn event_ops(h: u64, e: BusEvent, rep: Seq<u8>, p: int) -> Seq<Action> {
    match e {
        BusEvent::Probe(_) => release_ops(Line::Data, h),
        BusEvent::Start => start_condition_ops(h, rep[p + 2] == 0),
        BusEvent::Stop => stop_condition_ops(h, rep[p + 2] == 0),
        BusEvent::Sent(b) => write_bit_ops(h, b, rep[p + (if b == 1 { 3int } else { 2int }) + 2] == 0),
        BusEvent::Received(_) => read_bit_ops(h, rep[p + 5] == 0),
        BusEvent::Recovery => seq![],
    }
}

/// What the replies say of event `e` at `p`: the level a probe found, the
/// bit that was read.
pub open spec fn event_replies(e: BusEvent, rep: Seq<u8>, p: int) -> bool {
    match e {
        BusEvent::Probe(v) => v == level_bit(rep[p + 2]),
        BusEvent::Sent(b) => b <= 1,
        BusEvent::Received(b) => b == level_bit(rep[p + 3 + wait_len(rep[p + 5] == 0)]),
        _ => true,
    }
}

/// Event `e` happened at `p` of the log `ops`, whose replies are `rep`.
/// A start condition needs the data line released before it.
pub open spec fn justified(h: u64, ops: Seq<Action>, rep: Seq<u8>, e: BusEvent, p: int) -> bool {
    if e == BusEvent::Recovery {
        exists|k: nat| recovery_fits(h, ops, rep, p, k)
    } else {
        let seg = event_ops(h, e, rep, p);
        &&& 0 <= p
        &&& p + seg.len() <= ops.len()
        &&& ops.subrange(p, p + seg.len()) == seg
        &&& event_replies(e, rep, p)
        &&& (e == BusEvent::Start ==> released(ops.take(p), Line::Data))
    }
}

/// Every event is justified by the log at its mark, and the marks go up.
pub open spec fn consistent(h: u64, ops: Seq<Action>, rep: Seq<u8>, ev: Seq<BusEvent>, mk: Seq<int>) -> bool {
    &&& ops.len() == rep.len()
    &&& ev.len() == mk.len()
    &&& forall|k: int| 0 <= k < ev.len() ==> justified(h, ops, rep, #[trigger] ev[k], mk[k])
    &&& forall|k: int| 0 <= k < mk.len() ==> #[trigger] mk[k] < ops.len()
    &&& forall|k: int| 0 < k < mk.len() ==> mk[k - 1] < #[trigger] mk[k]
}

pub proof fn lemma_pulses_len(h: u64, n: nat)
    ensures
        pulses(h, n).len() == 5 * n,
    decreases n,
{
    if n > 0 {
        lemma_pulses_len(h, (n - 1) as nat);
    }
}

pub proof fn lemma_bursts_len(h: u64, k: nat)
    ensures
        bursts(h, k).len() == bursts_len(k),
    decreases k,
{
    lemma_pulses_len(h, PULSES_PER_BURST as nat);
    if k > 0 {
        lemma_bursts_len(h, (k - 1) as nat);
    }
}

/// An event stays justified when the log grows at its end.
pub proof fn lemma_justified_grow(
    h: u64,
    ops: Seq<Action>,
    rep: Seq<u8>,
    ops2: Seq<Action>,
    rep2: Seq<u8>,
    e: BusEvent,
    p: int,
)
    requires
        justified(h, ops, rep, e, p),
        ops.len() == rep.len(),
        ops.len() <= ops2.len(),
        forall|i: int| 0 <= i < ops.len() ==> #[trigger] ops2[i] == ops[i],
        forall|i: int| 0 <= i < ops.len() ==> #[trigger] rep2[i] == rep[i],
    ensures
        justified(h, ops2, rep2, e, p),
{
    if e == BusEvent::Recovery {
        let k = choose|k: nat| recovery_fits(h, ops, rep, p, k);
        lemma_bursts_len(h, k);
        let s = rep[p + 4 + bursts_len(k) + 6] == 0;
        let seg = recovery_ops(h, k, s);
        assert(rep2[p + 4 + bursts_len(k) + 6] == rep[p + 4 + bursts_len(k) + 6]);
        assert(ops2.subrange(p, p + seg.len()) =~= ops.subrange(p, p + seg.len()));
        assert forall|j: int| 0 <= j < k - 1 implies rep2[#[trigger] burst_look(p, j)] == 0 by {
            assert(rep2[burst_look(p, j)] == rep[burst_look(p, j)]);
        }
        if k < RECOVERY_BURSTS {
            assert(rep2[burst_look(p, k - 1)] == rep[burst_look(p, k - 1)]);
        }
        assert(recovery_fits(h, ops2, rep2, p, k));
    } else {
        let seg = event_ops(h, e, rep, p);
        if p + 2 < ops.len() {
            assert(rep2[p + 2] == rep[p + 2]);
        }
        if p + 4 < ops.len() {
            assert(rep2[p + 4] == rep[p + 4]);
        }
        if p + 5 < ops.len() {
            assert(rep2[p + 5] == rep[p + 5]);
        }
        if p + 7 < ops.len() {
            assert(rep2[p + 7] == rep[p + 7]);
        }
        if p + 8 < ops.len() {
            assert(rep2[p + 8] == rep[p + 8]);
        }
        assert(event_ops(h, e, rep2, p) == seg);
        assert(ops2.subrange(p, p + seg.len()) =~= ops.subrange(p, p + seg.len()));
        assert(ops2.take(p) =~= ops.take(p));
    }
}

/// The history stays borne out when the log grows at its end.
pub proof fn lemma_consistent_grow(
    h: u64,
    ops: Seq<Action>,
    rep: Seq<u8>,
    ops2: Seq<Action>,
    rep2: Seq<u8>,
    ev: Seq<BusEvent>,
    mk: Seq<int>,
)
    requires
        consistent(h, ops, rep, ev, mk),
        ops2.len() == rep2.len(),
        ops.len() <= ops2.len(),
        forall|i: int| 0 <= i < ops.len() ==> #[trigger] ops2[i] == ops[i],
        forall|i: int| 0 <= i < ops.len() ==> #[trigger] rep2[i] == rep[i],
    ensures
        consistent(h, ops2, rep2, ev, mk),
{
    assert forall|k: int| 0 <= k < ev.len() implies justified(h, ops2, rep2, #[trigger] ev[k], mk[k]) by {
        lemma_justified_grow(h, ops, rep, ops2, rep2, ev[k], mk[k]);
    }
}

/// A new event, borne out at a place after every earlier one, keeps the
/// history borne out.
pub proof fn lemma_consistent_push(
    h: u64,
    ops: Seq<Action>,
    rep: Seq<u8>,
    ev: Seq<BusEvent>,
    mk: Seq<int>,
    e: BusEvent,
    p: int,
)
    requires
        consistent(h, ops, rep, ev, mk),
        justified(h, ops, rep, e, p),
        p < ops.len(),
        mk.len() == 0 || mk.last() < p,
    ensures
        consistent(h, ops, rep, ev.push(e), mk.push(p)),
{
    let ev2 = ev.push(e);
    let mk2 = mk.push(p);
    assert forall|k: int| 0 <= k < ev2.len() implies justified(h, ops, rep, #[trigger] ev2[k], mk2[k]) by {
        if k < ev.len() {
            assert(ev2[k] == ev[k] && mk2[k] == mk[k]);
        }
    }
    assert forall|k: int| 0 < k < mk2.len() implies mk2[k - 1] < #[trigger] mk2[k] by {
        if k < mk.len() {
            assert(mk2[k - 1] == mk[k - 1]);
        }
    }
}

/// The actions of one bit on the wire: a bit of kind 0 or 1 is written by
/// the master, a bit of kind 2 is read by it.
pub open spec fn bit_ops(h: u64, kind: u8, stretched: bool) -> Seq<Action> {
    if kind == 2 {
        read_bit_ops(h, stretched)
    } else {
        write_bit_ops(h, kind, stretched)
    }
}

/// Where, within a bit of this kind, the clock is read.
pub open spec fn clock_look(kind: u8) -> int {
    if kind == 0 {
        4
    } else {
        5
    }
}

/// The actions of a run of bits starting at `p` of the log, each bit's
/// clock wait decided by the reply to its clock reading.
pub open spec fn bits_ops(h: u64, kinds: Seq<u8>, rep: Seq<u8>, p: int) -> Seq<Action>
    decreases kinds.len(),
{
    if kinds.len() == 0 {
        seq![]
    } else {
        let prev = bits_ops(h, kinds.drop_last(), rep, p);
        prev + bit_ops(h, kinds.last(), rep[p + prev.len() + clock_look(kinds.last())] == 0)
    }
}

/// The bits of a byte sent by the master, then the bit the peer answers.
pub open spec fn sent_kinds(b: u8) -> Seq<u8> {
    Seq::new(8, |i: int| bit_at(b, i)).push(2u8)
}

/// The bits of a byte read by the master, then its acknowledgement.
pub open spec fn received_kinds(send_ack: bool) -> Seq<u8> {
    Seq::new(8, |i: int| 2u8).push(ack_bit(send_ack))
}

/// A run of bits reads the replies only within its own actions.
pub proof fn lemma_bits_ops_frame(h: u64, kinds: Seq<u8>, rep: Seq<u8>, rep2: Seq<u8>, p: int)
    requires
        0 <= p,
        p + bits_ops(h, kinds, rep, p).len() <= rep.len(),
        forall|i: int| 0 <= i < rep.len() ==> #[trigger] rep2[i] == rep[i],
    ensures
        bits_ops(h, kinds, rep2, p) == bits_ops(h, kinds, rep, p),
    decreases kinds.len(),
{
    if kinds.len() > 0 {
        let prev = bits_ops(h, kinds.drop_last(), rep, p);
        let k = kinds.last();
        let s = rep[p + prev.len() + clock_look(k)] == 0;
        assert(bit_ops(h, k, s).len() > clock_look(k));
        lemma_bits_ops_frame(h, kinds.drop_last(), rep, rep2, p);
        assert(rep2[p + prev.len() + clock_look(k)] == rep[p + prev.len() + clock_look(k)]);
    }
}

/// One more bit extends a run of bits by that bit's actions.
pub proof fn lemma_bits_ops_push(h: u64, kinds: Seq<u8>, k: u8, rep: Seq<u8>, p: int)
    ensures
        bits_ops(h, kinds.push(k), rep, p) == bits_ops(h, kinds, rep, p) + bit_ops(
            h,
            k,
            rep[p + bits_ops(h, kinds, rep, p).len() + clock_look(k)] == 0,
        ),
{
    assert(kinds.push(k).drop_last() =~= kinds);
}

/// Two runs of bits one after the other are one run.
pub proof fn lemma_bits_ops_concat(h: u64, k1: Seq<u8>, k2: Seq<u8>, rep: Seq<u8>, p: int)
    ensures
        bits_ops(h, k1 + k2, rep, p) == bits_ops(h, k1, rep, p) + bits_ops(h, k2, rep, p + bits_ops(h, k1, rep, p).len()),
    decreases k2.len(),
{
    if k2.len() == 0 {
        assert(k1 + k2 =~= k1);
        assert(bits_ops(h, k1, rep, p) + bits_ops(h, k2, rep, p + bits_ops(h, k1, rep, p).len()) =~= bits_ops(h, k1, rep, p));
    } else {
        lemma_bits_ops_concat(h, k1, k2.drop_last(), rep, p);
        assert((k1 + k2).drop_last() =~= k1 + k2.drop_last());
        assert((k1 + k2).last() == k2.last());
        let b1 = bits_ops(h, k1, rep, p);
        let q = p + b1.len();
        let b2 = bits_ops(h, k2.drop_last(), rep, q);
        assert(bits_ops(h, k1 + k2, rep, p) =~= b1 + bits_ops(h, k2, rep, q));
    }
}

/// The bits of the bytes `bytes` sent by the master, each with its answer.
pub open spec fn sent_run(bytes: Seq<u8>) -> Seq<u8>
    decreases bytes.len(),
{
    if bytes.len() == 0 {
        seq![]
    } else {
        sent_run(bytes.drop_last()) + sent_kinds(bytes.last())
    }
}

/// The bits of the first `n` bytes of a read of `total` bytes.
pub open spec fn received_run(n: nat, total: nat) -> Seq<u8>
    decreases n,
{
    if n == 0 {
        seq![]
    } else {
        received_run((n - 1) as nat, total) + received_kinds(n < total)
    }
}

/// A start on an idle bus at `p`: the data line let go and read, then the
/// start condition.
pub open spec fn start_ops(h: u64, rep: Seq<u8>, p: int) -> Seq<Action> {
    release_ops(Line::Data, h) + start_condition_ops(h, rep[p + 5] == 0)
}

/// A stop at `p` that finds the data line free.
pub open spec fn stop_ops(h: u64, rep: Seq<u8>, p: int) -> Seq<Action> {
    stop_condition_ops(h, rep[p + 2] == 0)
}

/// Where the data line is read in a stop at `p`.
pub open spec fn stop_look(rep: Seq<u8>, p: int) -> int {
    p + wait_len(rep[p + 2] == 0) + 2
}

/// The wire of a write transfer at `p` in which neither the start nor the
/// stop found the data line low.
pub open spec fn write_ops(h: u64, address: u8, bytes: Seq<u8>, rep: Seq<u8>, p: int) -> Seq<Action> {
    let s = start_ops(h, rep, p);
    let b = bits_ops(h, sent_kinds(address_byte(address, false)) + sent_run(bytes), rep, p + s.len());
    s + b + stop_ops(h, rep, p + s.len() + b.len())
}

/// Whether the data line read high at both the start and the stop of a
/// write transfer at `p`.
pub open spec fn write_was_clean(h: u64, address: u8, bytes: Seq<u8>, rep: Seq<u8>, p: int) -> bool {
    let s = start_ops(h, rep, p);
    let b = bits_ops(h, sent_kinds(address_byte(address, false)) + sent_run(bytes), rep, p + s.len());
    rep[p + 2] != 0 && rep[stop_look(rep, p + s.len() + b.len())] != 0
}

/// The wire of a read transfer of `n` bytes at `p` in which neither the
/// start nor the stop found the data line low.
pub open spec fn read_ops(h: u64, address: u8, n: nat, rep: Seq<u8>, p: int) -> Seq<Action> {
    let s = start_ops(h, rep, p);
    let b = bits_ops(h, sent_kinds(address_byte(address, true)) + received_run(n, n), rep, p + s.len());
    s + b + stop_ops(h, rep, p + s.len() + b.len())
}

/// Whether the data line read high at both the start and the stop of a
/// read transfer of `n` bytes at `p`.
pub open spec fn read_was_clean(h: u64, address: u8, n: nat, rep: Seq<u8>, p: int) -> bool {
    let s = start_ops(h, rep, p);
    let b = bits_ops(h, sent_kinds(address_byte(address, true)) + received_run(n, n), rep, p + s.len());
    rep[p + 2] != 0 && rep[stop_look(rep, p + s.len() + b.len())] != 0
}

/// The wire of a combined transfer at `p` in which neither start nor the
/// stop found the data line low: start, the address and `bytes`, a
/// repeated start, the address and `n` bytes read, stop.
pub open spec fn write_read_ops(h: u64, address: u8, bytes: Seq<u8>, n: nat, rep: Seq<u8>, p: int) -> Seq<Action> {
    let s1 = start_ops(h, rep, p);
    let b1 = bits_ops(h, sent_kinds(address_byte(address, false)) + sent_run(bytes), rep, p + s1.len());
    let q = p + s1.len() + b1.len();
    let s2 = start_ops(h, rep, q);
    let b2 = bits_ops(h, sent_kinds(address_byte(address, true)) + received_run(n, n), rep, q + s2.len());
    s1 + b1 + s2 + b2 + stop_ops(h, rep, q + s2.len() + b2.len())
}

/// Whether the data line read high at both starts and at the stop of a
/// combined transfer at `p`.
pub open spec fn write_read_was_clean(h: u64, address: u8, bytes: Seq<u8>, n: nat, rep: Seq<u8>, p: int) -> bool {
    let s1 = start_ops(h, rep, p);
    let b1 = bits_ops(h, sent_kinds(address_byte(address, false)) + sent_run(bytes), rep, p + s1.len());
    let q = p + s1.len() + b1.len();
    let s2 = start_ops(h, rep, q);
    let b2 = bits_ops(h, sent_kinds(address_byte(address, true)) + received_run(n, n), rep, q + s2.len());
    rep[p + 2] != 0 && rep[q + 2] != 0 && rep[stop_look(rep, q + s2.len() + b2.len())] != 0
}

} // verus!
