//! Facts about whole transfers, stated over the event model that the
//! engine's contracts use.
use vstd::prelude::*;

use crate::wire::{
    BusEvent, bit_at, ack_bit, received_byte, received_bytes, start_events, stop_events, sent_byte,
    sent_bytes, write_events, read_events, write_read_events, Action, Line, pulls, pulses, bursts, burst_ops,
    pulse_ops, RECOVERY_BURSTS,
};

verus! {

/// A byte read ends with the master's acknowledgement as its ninth bit: 0
/// when more bytes are asked for, 1 (no acknowledgement) when not.
pub proof fn read_byte_ends_with_ack(b: u8, send_ack: bool)
    ensures
        received_byte(b, send_ack).len() == 9,
        received_byte(b, send_ack)[8] == BusEvent::Sent(if send_ack { 0u8 } else { 1u8 }),
        forall|j: int| 0 <= j < 8 ==> #[trigger] received_byte(b, send_ack)[j] == BusEvent::Received(bit_at(b, j)),
{
}

/// The first bytes of a read of `total` bytes: byte `i` comes as its eight
/// bits, then an acknowledgement exactly when another byte follows.
pub proof fn received_bytes_layout(vals: Seq<u8>, total: nat)
    requires
        vals.len() <= total,
    ensures
        received_bytes(vals, total).len() == 9 * vals.len(),
        forall|i: int, j: int| 0 <= i < vals.len() && 0 <= j < 8 ==> #[trigger] received_bytes(vals, total)[9 * i + j]
            == BusEvent::Received(bit_at(vals[i], j)),
        forall|i: int| 0 <= i < vals.len() ==> #[trigger] received_bytes(vals, total)[9 * i + 8]
            == BusEvent::Sent(ack_bit(i + 1 < total)),
    decreases vals.len(),
{
    if vals.len() > 0 {
        let init = vals.drop_last();
        received_bytes_layout(init, total);
        let n = init.len() as int;
        let whole = received_bytes(vals, total);
        let last = received_byte(vals.last(), vals.len() < total);
        assert(whole == received_bytes(init, total) + last);
        assert forall|i: int, j: int| 0 <= i < vals.len() && 0 <= j < 8 implies #[trigger] whole[9 * i + j]
            == BusEvent::Received(bit_at(vals[i], j)) by {
            if i < n {
                assert(9 * i + j < 9 * n) by (nonlinear_arith)
                    requires
                        i < n,
                        j < 8,
                ;
                assert(vals[i] == init[i]);
            } else {
                assert(9 * i + j - 9 * n == j);
            }
        }
        assert forall|i: int| 0 <= i < vals.len() implies #[trigger] whole[9 * i + 8] == BusEvent::Sent(
            ack_bit(i + 1 < total),
        ) by {
            if i < n {
                assert(9 * i + 8 < 9 * n) by (nonlinear_arith)
                    requires
                        i < n,
                ;
            } else {
                assert(9 * i + 8 - 9 * n == 8);
            }
        }
    }
}

/// In a read of `vals`, every byte but the last is acknowledged, and the
/// last is not; a read of one byte does not acknowledge it.
pub proof fn read_acknowledges_all_but_last(vals: Seq<u8>, i: int)
    requires
        0 <= i < vals.len(),
    ensures
        received_bytes(vals, vals.len())[9 * i + 8] == BusEvent::Sent(if i < vals.len() - 1 { 0u8 } else { 1u8 }),
{
    received_bytes_layout(vals, vals.len());
}

/// A start recovers the bus first exactly when the data line was read low:
/// the recovery then comes before the start condition.
pub proof fn start_recovers_only_when_held_low(probe: u8)
    ensures
        probe == 0 ==> start_events(probe) == seq![BusEvent::Probe(0), BusEvent::Recovery, BusEvent::Start],
        probe != 0 ==> start_events(probe) == seq![BusEvent::Probe(probe), BusEvent::Start],
        probe != 0 ==> !start_events(probe).contains(BusEvent::Recovery),
{
    if probe == 0 {
        assert(start_events(probe) =~= seq![BusEvent::Probe(0), BusEvent::Recovery, BusEvent::Start]);
    } else {
        assert(start_events(probe) =~= seq![BusEvent::Probe(probe), BusEvent::Start]);
        assert(start_events(probe)[0] != BusEvent::Recovery);
        assert(start_events(probe)[1] != BusEvent::Recovery);
    }
}

/// How many times `e` occurs in `ev`.
pub open spec fn occurrences(ev: Seq<BusEvent>, e: BusEvent) -> nat
    decreases ev.len(),
{
    if ev.len() == 0 {
        0
    } else {
        occurrences(ev.drop_last(), e) + if ev.last() == e { 1nat } else { 0nat }
    }
}

proof fn lemma_occurrences_concat(a: Seq<BusEvent>, b: Seq<BusEvent>, e: BusEvent)
    ensures
        occurrences(a + b, e) == occurrences(a, e) + occurrences(b, e),
    decreases b.len(),
{
    if b.len() == 0 {
        assert(a + b =~= a);
    } else {
        lemma_occurrences_concat(a, b.drop_last(), e);
        assert((a + b).drop_last() =~= a + b.drop_last());
    }
}

proof fn lemma_occurrences_absent(ev: Seq<BusEvent>, e: BusEvent)
    requires
        forall|i: int| 0 <= i < ev.len() ==> ev[i] != e,
    ensures
        occurrences(ev, e) == 0,
    decreases ev.len(),
{
    if ev.len() > 0 {
        lemma_occurrences_absent(ev.drop_last(), e);
    }
}

proof fn lemma_occurrences_one(x: BusEvent, e: BusEvent)
    ensures
        occurrences(seq![x], e) == if x == e { 1nat } else { 0nat },
{
    assert(seq![x].drop_last() =~= Seq::<BusEvent>::empty());
    assert(occurrences(Seq::<BusEvent>::empty(), e) == 0);
    assert(seq![x].last() == x);
}

/// Start and stop conditions in a start, a stop, and in bytes on the wire.
proof fn lemma_condition_counts(probe: u8, e: BusEvent)
    requires
        e == BusEvent::Start || e == BusEvent::Stop,
    ensures
        occurrences(start_events(probe), e) == if e == BusEvent::Start { 1nat } else { 0nat },
        occurrences(stop_events(probe), e) == if e == BusEvent::Stop { 1nat } else { 0nat },
        forall|b: u8, a: u8| #[trigger] occurrences(sent_byte(b, a), e) == 0,
        forall|b: u8, k: bool| #[trigger] occurrences(received_byte(b, k), e) == 0,
{
    let mid = if probe == 0 { seq![BusEvent::Recovery] } else { Seq::<BusEvent>::empty() };
    lemma_occurrences_absent(mid, e);
    lemma_occurrences_one(BusEvent::Probe(probe), e);
    lemma_occurrences_one(BusEvent::Start, e);
    lemma_occurrences_one(BusEvent::Stop, e);
    lemma_occurrences_concat(seq![BusEvent::Probe(probe)], mid, e);
    lemma_occurrences_concat(seq![BusEvent::Probe(probe)] + mid, seq![BusEvent::Start], e);
    assert(seq![BusEvent::Stop, BusEvent::Probe(probe)] =~= seq![BusEvent::Stop] + seq![BusEvent::Probe(probe)]);
    lemma_occurrences_concat(seq![BusEvent::Stop], seq![BusEvent::Probe(probe)], e);
    lemma_occurrences_concat(seq![BusEvent::Stop, BusEvent::Probe(probe)], mid, e);
    assert forall|b: u8, a: u8| #[trigger] occurrences(sent_byte(b, a), e) == 0 by {
        lemma_occurrences_absent(sent_byte(b, a), e);
    }
    assert forall|b: u8, k: bool| #[trigger] occurrences(received_byte(b, k), e) == 0 by {
        lemma_occurrences_absent(received_byte(b, k), e);
    }
}

proof fn lemma_no_conditions_in_bytes(bytes: Seq<u8>, acks: Seq<u8>, vals: Seq<u8>, total: nat, e: BusEvent)
    requires
        e == BusEvent::Start || e == BusEvent::Stop,
    ensures
        occurrences(sent_bytes(bytes, acks), e) == 0,
        occurrences(received_bytes(vals, total), e) == 0,
    decreases bytes.len() + vals.len(),
{
    lemma_condition_counts(0, e);
    if bytes.len() > 0 {
        lemma_no_conditions_in_bytes(bytes.drop_last(), acks.drop_last(), Seq::empty(), total, e);
        lemma_occurrences_concat(
            sent_bytes(bytes.drop_last(), acks.drop_last()),
            sent_byte(bytes.last(), acks.last()),
            e,
        );
    }
    if vals.len() > 0 {
        lemma_no_conditions_in_bytes(Seq::empty(), Seq::empty(), vals.drop_last(), total, e);
        lemma_occurrences_concat(
            received_bytes(vals.drop_last(), total),
            received_byte(vals.last(), vals.len() < total),
            e,
        );
    }
    assert(sent_bytes(Seq::empty(), Seq::empty()) =~= Seq::<BusEvent>::empty());
}

/// A write transfer holds exactly one start condition and one stop
/// condition, whatever the peer answers.
pub proof fn write_has_one_start_and_one_stop(address: u8, bytes: Seq<u8>, probes: Seq<u8>, acks: Seq<u8>)
    requires
        probes.len() == 2,
        acks.len() == bytes.len() + 1,
    ensures
        occurrences(write_events(address, bytes, probes, acks), BusEvent::Start) == 1,
        occurrences(write_events(address, bytes, probes, acks), BusEvent::Stop) == 1,
{
    let e0 = start_events(probes[0]);
    let e1 = sent_byte((address << 1u8) | 0u8, acks[0]);
    let e2 = sent_bytes(bytes, acks.skip(1));
    let e3 = stop_events(probes[1]);
    assert(write_events(address, bytes, probes, acks) == e0 + e1 + e2 + e3);
    let ev = seq![BusEvent::Start, BusEvent::Stop];
    assert forall|k: int| 0 <= k < 2 implies occurrences(e0 + e1 + e2 + e3, #[trigger] ev[k]) == 1 by {
        let e = ev[k];
        lemma_condition_counts(probes[0], e);
        lemma_condition_counts(probes[1], e);
        lemma_no_conditions_in_bytes(bytes, acks.skip(1), Seq::empty(), 0, e);
        lemma_occurrences_concat(e0, e1, e);
        lemma_occurrences_concat(e0 + e1, e2, e);
        lemma_occurrences_concat(e0 + e1 + e2, e3, e);
    }
    assert(ev[0] == BusEvent::Start && ev[1] == BusEvent::Stop);
}

/// A read transfer holds exactly one start condition and one stop
/// condition, whatever the peer sends.
pub proof fn read_has_one_start_and_one_stop(address: u8, vals: Seq<u8>, probes: Seq<u8>, ack: u8)
    requires
        probes.len() == 2,
    ensures
        occurrences(read_events(address, vals, probes, ack), BusEvent::Start) == 1,
        occurrences(read_events(address, vals, probes, ack), BusEvent::Stop) == 1,
{
    let e0 = start_events(probes[0]);
    let e1 = sent_byte((address << 1u8) | 1u8, ack);
    let e2 = received_bytes(vals, vals.len());
    let e3 = stop_events(probes[1]);
    assert(read_events(address, vals, probes, ack) == e0 + e1 + e2 + e3);
    let ev = seq![BusEvent::Start, BusEvent::Stop];
    assert forall|k: int| 0 <= k < 2 implies occurrences(e0 + e1 + e2 + e3, #[trigger] ev[k]) == 1 by {
        let e = ev[k];
        lemma_condition_counts(probes[0], e);
        lemma_condition_counts(probes[1], e);
        lemma_no_conditions_in_bytes(Seq::empty(), Seq::empty(), vals, vals.len(), e);
        lemma_occurrences_concat(e0, e1, e);
        lemma_occurrences_concat(e0 + e1, e2, e);
        lemma_occurrences_concat(e0 + e1 + e2, e3, e);
    }
    assert(ev[0] == BusEvent::Start && ev[1] == BusEvent::Stop);
}

/// A combined transfer holds two start conditions, the first and the
/// repeated one, and exactly one stop condition, whatever the peer does.
pub proof fn write_read_has_two_starts_and_one_stop(
    address: u8,
    bytes: Seq<u8>,
    vals: Seq<u8>,
    probes: Seq<u8>,
    acks: Seq<u8>,
)
    requires
        probes.len() == 3,
        acks.len() == bytes.len() + 2,
    ensures
        occurrences(write_read_events(address, bytes, vals, probes, acks), BusEvent::Start) == 2,
        occurrences(write_read_events(address, bytes, vals, probes, acks), BusEvent::Stop) == 1,
{
    let n = bytes.len() as int;
    let e0 = start_events(probes[0]);
    let e1 = sent_byte((address << 1u8) | 0u8, acks[0]);
    let e2 = sent_bytes(bytes, acks.subrange(1, n + 1));
    let e3 = start_events(probes[1]);
    let e4 = sent_byte((address << 1u8) | 1u8, acks[n + 1]);
    let e5 = received_bytes(vals, vals.len());
    let e6 = stop_events(probes[2]);
    let all = e0 + e1 + e2 + e3 + e4 + e5 + e6;
    assert(write_read_events(address, bytes, vals, probes, acks) == all);
    let ev = seq![BusEvent::Start, BusEvent::Stop];
    assert forall|k: int| 0 <= k < 2 implies occurrences(all, #[trigger] ev[k]) == if k == 0 { 2nat } else { 1nat } by {
        let e = ev[k];
        lemma_condition_counts(probes[0], e);
        lemma_condition_counts(probes[1], e);
        lemma_condition_counts(probes[2], e);
        lemma_no_conditions_in_bytes(bytes, acks.subrange(1, n + 1), vals, vals.len(), e);
        lemma_occurrences_concat(e0, e1, e);
        lemma_occurrences_concat(e0 + e1, e2, e);
        lemma_occurrences_concat(e0 + e1 + e2, e3, e);
        lemma_occurrences_concat(e0 + e1 + e2 + e3, e4, e);
        lemma_occurrences_concat(e0 + e1 + e2 + e3 + e4, e5, e);
        lemma_occurrences_concat(e0 + e1 + e2 + e3 + e4 + e5, e6, e);
    }
    assert(ev[0] == BusEvent::Start && ev[1] == BusEvent::Stop);
}

/// Bytes sent by the master: byte `i` comes as its eight bits, then the
/// peer's answer.
pub proof fn sent_bytes_layout(bytes: Seq<u8>, acks: Seq<u8>)
    requires
        acks.len() == bytes.len(),
    ensures
        sent_bytes(bytes, acks).len() == 9 * bytes.len(),
        forall|i: int, j: int| 0 <= i < bytes.len() && 0 <= j < 8 ==> #[trigger] sent_bytes(bytes, acks)[9 * i + j]
            == BusEvent::Sent(bit_at(bytes[i], j)),
        forall|i: int| 0 <= i < bytes.len() ==> #[trigger] sent_bytes(bytes, acks)[9 * i + 8] == BusEvent::Received(acks[i]),
    decreases bytes.len(),
{
    if bytes.len() > 0 {
        let init = bytes.drop_last();
        sent_bytes_layout(init, acks.drop_last());
        let n = init.len() as int;
        let whole = sent_bytes(bytes, acks);
        assert(whole == sent_bytes(init, acks.drop_last()) + sent_byte(bytes.last(), acks.last()));
        assert forall|i: int, j: int| 0 <= i < bytes.len() && 0 <= j < 8 implies #[trigger] whole[9 * i + j]
            == BusEvent::Sent(bit_at(bytes[i], j)) by {
            if i < n {
                assert(9 * i + j < 9 * n) by (nonlinear_arith)
                    requires
                        i < n,
                        j < 8,
                ;
                assert(bytes[i] == init[i]);
            } else {
                assert(9 * i + j - 9 * n == j);
            }
        }
        assert forall|i: int| 0 <= i < bytes.len() implies #[trigger] whole[9 * i + 8] == BusEvent::Received(acks[i]) by {
            if i < n {
                assert(9 * i + 8 < 9 * n) by (nonlinear_arith)
                    requires
                        i < n,
                ;
                assert(acks[i] == acks.drop_last()[i]);
            } else {
                assert(9 * i + 8 - 9 * n == 8);
            }
        }
    }
}

/// Whether `got` is the bit that `sent` put on the line, read back.
pub open spec fn echoes(sent: BusEvent, got: BusEvent) -> bool {
    match (sent, got) {
        (BusEvent::Sent(a), BusEvent::Received(b)) => a == b,
        _ => false,
    }
}

/// Two bytes with the same eight bits are equal.
proof fn lemma_bits_determine_byte(a: u8, b: u8)
    requires
        forall|j: int| 0 <= j < 8 ==> #[trigger] bit_at(a, j) == bit_at(b, j),
    ensures
        a == b,
{
    assert(bit_at(a, 0) == bit_at(b, 0));
    assert(bit_at(a, 1) == bit_at(b, 1));
    assert(bit_at(a, 2) == bit_at(b, 2));
    assert(bit_at(a, 3) == bit_at(b, 3));
    assert(bit_at(a, 4) == bit_at(b, 4));
    assert(bit_at(a, 5) == bit_at(b, 5));
    assert(bit_at(a, 6) == bit_at(b, 6));
    assert(bit_at(a, 7) == bit_at(b, 7));
    assert(a == b) by (bit_vector)
        requires
            (a >> 7u8) & 1u8 == (b >> 7u8) & 1u8,
            (a >> 6u8) & 1u8 == (b >> 6u8) & 1u8,
            (a >> 5u8) & 1u8 == (b >> 5u8) & 1u8,
            (a >> 4u8) & 1u8 == (b >> 4u8) & 1u8,
            (a >> 3u8) & 1u8 == (b >> 3u8) & 1u8,
            (a >> 2u8) & 1u8 == (b >> 2u8) & 1u8,
            (a >> 1u8) & 1u8 == (b >> 1u8) & 1u8,
            (a >> 0u8) & 1u8 == (b >> 0u8) & 1u8,
    ;
}

/// Written bytes come back from a peer that echoes them: when every data
/// bit of a read of as many bytes is the bit sent at the same place of the
/// write, the read returns exactly the bytes written.
pub proof fn echoed_write_reads_back(bytes: Seq<u8>, acks: Seq<u8>, vals: Seq<u8>)
    requires
        acks.len() == bytes.len(),
        vals.len() == bytes.len(),
        forall|i: int, j: int| 0 <= i < bytes.len() && 0 <= j < 8 ==> echoes(
            #[trigger] sent_bytes(bytes, acks)[9 * i + j],
            received_bytes(vals, vals.len())[9 * i + j],
        ),
    ensures
        vals == bytes,
{
    sent_bytes_layout(bytes, acks);
    received_bytes_layout(vals, vals.len());
    assert forall|i: int| 0 <= i < bytes.len() implies vals[i] == bytes[i] by {
        assert forall|j: int| 0 <= j < 8 implies #[trigger] bit_at(vals[i], j) == bit_at(bytes[i], j) by {
            assert(echoes(sent_bytes(bytes, acks)[9 * i + j], received_bytes(vals, vals.len())[9 * i + j]));
        }
        lemma_bits_determine_byte(vals[i], bytes[i]);
    }
    assert(vals =~= bytes);
}

proof fn lemma_pulls_concat(a: Seq<Action>, b: Seq<Action>, l: Line)
    ensures
        pulls(a + b, l) == pulls(a, l) + pulls(b, l),
    decreases b.len(),
{
    if b.len() == 0 {
        assert(a + b =~= a);
    } else {
        lemma_pulls_concat(a, b.drop_last(), l);
        assert((a + b).drop_last() =~= a + b.drop_last());
    }
}

proof fn lemma_pulls_of_pulses(h: u64, n: nat)
    ensures
        pulls(pulses(h, n), Line::Clock) == n,
        pulls(pulses(h, n), Line::Data) == 0,
    decreases n,
{
    if n > 0 {
        lemma_pulls_of_pulses(h, (n - 1) as nat);
        let p = pulse_ops(h);
        reveal_with_fuel(pulls, 6);
        assert(p.drop_last().drop_last().drop_last().drop_last().drop_last() =~= Seq::<Action>::empty());
        assert(pulls(Seq::<Action>::empty(), Line::Clock) == 0);
        assert(pulls(Seq::<Action>::empty(), Line::Data) == 0);
        assert(pulls(p, Line::Clock) == 1);
        assert(pulls(p, Line::Data) == 0);
        lemma_pulls_concat(pulses(h, (n - 1) as nat), p, Line::Clock);
        lemma_pulls_concat(pulses(h, (n - 1) as nat), p, Line::Data);
    }
}

/// The bursts of a recovery of `k` bursts pull the clock low ten times per
/// burst, so at most a thousand times, and never drive the data line.
pub proof fn recovery_pulses(h: u64, k: nat)
    requires
        k <= RECOVERY_BURSTS,
    ensures
        pulls(bursts(h, k), Line::Clock) == 10 * k,
        pulls(bursts(h, k), Line::Clock) <= 1000,
        pulls(bursts(h, k), Line::Data) == 0,
    decreases k,
{
    if k > 0 {
        recovery_pulses(h, (k - 1) as nat);
        lemma_pulls_of_pulses(h, 10);
        let tail = seq![Action::Delay(crate::wire::RECOVERY_PAUSE_US), Action::Sample(Line::Data)];
        reveal_with_fuel(pulls, 3);
        assert(tail.drop_last().drop_last() =~= Seq::<Action>::empty());
        assert(pulls(Seq::<Action>::empty(), Line::Clock) == 0);
        assert(pulls(Seq::<Action>::empty(), Line::Data) == 0);
        assert(pulls(tail, Line::Clock) == 0);
        assert(pulls(tail, Line::Data) == 0);
        lemma_pulls_concat(pulses(h, 10), tail, Line::Clock);
        lemma_pulls_concat(pulses(h, 10), tail, Line::Data);
        assert(burst_ops(h) == pulses(h, 10) + tail);
        lemma_pulls_concat(bursts(h, (k - 1) as nat), burst_ops(h), Line::Clock);
        lemma_pulls_concat(bursts(h, (k - 1) as nat), burst_ops(h), Line::Data);
    }
}

} // verus!
