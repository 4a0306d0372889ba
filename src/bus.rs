//! The protocol engine: line control, bits, bytes, recovery and transfers.
use vstd::prelude::*;

use crate::wire::{
    Action, BusEvent, Line, bits_ops, bit_ops, sent_kinds, received_kinds, lemma_bits_ops_frame,
    lemma_bits_ops_push, lemma_bits_ops_concat, start_ops, stop_ops, stop_look, write_ops,
    write_was_clean, read_ops, read_was_clean, write_read_ops, write_read_was_clean, sent_run, received_run, clock_look, serves, never_fails, from_io, level_bit, consistent, wait_len,
    lemma_consistent_grow, lemma_consistent_push, lemma_pulses_len, bursts, burst_ops, pulses, pulse_ops,
    recovery_ops, recovery_fits, burst_look, bursts_len, lemma_bursts_len, justified, event_ops, released_after, released, pulls, pull_ops, release_ops,
    wait_clock_ops, write_bit_ops, read_bit_ops, bit_at, ack_bit, sent_byte, received_byte,
    start_events, stop_events, start_condition_ops, stop_condition_ops, STRETCH_WAIT_US,
    RECOVERY_PAUSE_US, RECOVERY_BURSTS, PULSES_PER_BURST, sent_bytes, received_bytes,
    write_events, read_events, write_read_events, address_byte,
};

verus! {

/// A bus master on one clock line and one data line.
pub struct I2cGPIO {
    half_period: u64,
    ops: Ghost<Seq<Action>>,
    replies: Ghost<Seq<u8>>,
    events: Ghost<Seq<BusEvent>>,
    marks: Ghost<Seq<int>>,
}

impl I2cGPIO {
    /// Half a bit period, in microseconds.
    pub closed spec fn half_period_us(&self) -> u64 {
        self.half_period
    }

    /// Every action that the pin layer carried out so far, in order.
    pub closed spec fn wire(&self) -> Seq<Action> {
        self.ops@
    }

    /// What the pin layer replied to each action of `wire`.
    pub closed spec fn replies(&self) -> Seq<u8> {
        self.replies@
    }

    /// Every bit and condition so far, in order.
    pub closed spec fn history(&self) -> Seq<BusEvent> {
        self.events@
    }

    /// Where in `wire` each event of `history` begins.
    pub closed spec fn marks(&self) -> Seq<int> {
        self.marks@
    }

    /// Each event of the history is borne out by the actions and replies
    /// at its place in the log.
    pub open spec fn wf(&self) -> bool {
        consistent(self.half_period_us(), self.wire(), self.replies(), self.history(), self.marks())
    }

    /// `self` comes from `earlier` by adding to the log and to the history,
    /// and every new event lies in the new part of the log.
    pub open spec fn grows(&self, earlier: &Self) -> bool {
        &&& self.half_period_us() == earlier.half_period_us()
        &&& earlier.wire().len() <= self.wire().len()
        &&& forall|i: int| 0 <= i < earlier.wire().len() ==> #[trigger] self.wire()[i] == earlier.wire()[i]
        &&& forall|i: int| 0 <= i < earlier.wire().len() ==> #[trigger] self.replies()[i] == earlier.replies()[i]
        &&& earlier.history().len() <= self.history().len()
        &&& forall|k: int| 0 <= k < earlier.history().len() ==> #[trigger] self.history()[k] == earlier.history()[k]
        &&& forall|k: int| 0 <= k < earlier.history().len() ==> #[trigger] self.marks()[k] == earlier.marks()[k]
        &&& forall|k: int| earlier.history().len() <= k < self.history().len() ==> #[trigger] self.marks()[k]
            >= earlier.wire().len()
    }

    /// Every action of the log from `from` on was carried out by `io`, which
    /// replied with the logged value.
    pub open spec fn answered<F: Fn(Action) -> Result<u8, E>, E>(&self, io: &F, from: int) -> bool {
        forall|i: int| from <= i < self.wire().len() ==> #[trigger] io.ensures((self.wire()[i],), Ok::<u8, E>(self.replies()[i]))
    }

    /// A master for a clock of `speed` Hz; `None` for a speed of zero.
    pub fn new(speed: u64) -> (r: Option<I2cGPIO>)
        ensures
            r is None <==> speed == 0,
            r matches Some(b) ==> {
                &&& b.half_period_us() == 500000u64 / speed
                &&& b.wire() == Seq::<Action>::empty()
                &&& b.history() == Seq::<BusEvent>::empty()
                &&& b.wf()
            },
    {
        if speed == 0 {
            None
        } else {
            Some(
                I2cGPIO {
                    half_period: 500000 / speed,
                    ops: Ghost(Seq::empty()),
                    replies: Ghost(Seq::empty()),
                    events: Ghost(Seq::empty()),
                    marks: Ghost(Seq::empty()),
                },
            )
        }
    }

    /// Half a bit period, in microseconds.
    pub fn half_period(&self) -> (r: u64)
        ensures
            r == self.half_period_us(),
    {
        self.half_period
    }

    /// Hands `a` to the pin layer and logs it with the reply.
    fn perform<F: Fn(Action) -> Result<u8, E>, E>(&mut self, io: &F, a: Action) -> (r: Result<u8, E>)
        requires
            old(self).wf(),
            serves(io),
        ensures
            never_fails(io) ==> r is Ok,
            r matches Err(e) ==> from_io(io, e),
            final(self).wf(),
            final(self).grows(old(self)),
            final(self).answered(io, old(self).ops@.len() as int),
            final(self).half_period == old(self).half_period,
            final(self).events == old(self).events,
            final(self).marks == old(self).marks,
            io.ensures((a,), r),
            r is Err ==> final(self).ops == old(self).ops,
            r matches Ok(v) ==> {
                &&& final(self).ops@ == old(self).ops@.push(a)
                &&& final(self).replies@ == old(self).replies@.push(v)
                &&& forall|l: Line| #[trigger] released(final(self).ops@, l) == released_after(a, l, released(old(self).ops@, l))
                &&& forall|l: Line| #[trigger] pulls(final(self).ops@, l) == pulls(old(self).ops@, l) + if a == Action::Pull(l) { 1nat } else { 0nat }
            },
    {
        let r = io(a);
        if let Ok(v) = r {
            proof {
                assert(self.ops@.push(a).drop_last() =~= self.ops@);
                lemma_consistent_grow(
                    self.half_period,
                    self.ops@,
                    self.replies@,
                    self.ops@.push(a),
                    self.replies@.push(v),
                    self.events@,
                    self.marks@,
                );
            }
            self.ops = Ghost(self.ops@.push(a));
            self.replies = Ghost(self.replies@.push(v));
        }
        r
    }

    fn pull<F: Fn(Action) -> Result<u8, E>, E>(&mut self, io: &F, line: Line) -> (r: Result<(), E>)
        requires
            old(self).wf(),
            serves(io),
        ensures
            never_fails(io) ==> r is Ok,
            r is Err ==> final(self).ops@.len() < old(self).ops@.len() + (pull_ops(line, old(self).half_period)).len()
                && final(self).ops@ =~= (old(self).ops@ + pull_ops(line, old(self).half_period)).take(final(self).ops@.len() as int),
            r matches Err(e) ==> from_io(io, e),
            final(self).wf(),
            final(self).grows(old(self)),
            final(self).answered(io, old(self).ops@.len() as int),
            final(self).half_period == old(self).half_period,
            final(self).events == old(self).events,
            final(self).marks == old(self).marks,
            r is Ok ==> {
                &&& final(self).ops@ == old(self).ops@ + pull_ops(line, old(self).half_period)
                &&& !released(final(self).ops@, line)
                &&& forall|l: Line| l != line ==> #[trigger] released(final(self).ops@, l) == released(old(self).ops@, l)
                &&& forall|l: Line| #[trigger] pulls(final(self).ops@, l) == pulls(old(self).ops@, l) + if l == line { 1nat } else { 0nat }
            },
    {
        self.perform(io, Action::Pull(line))?;
        self.perform(io, Action::Delay(self.half_period))?;
        assert(self.ops@ =~= old(self).ops@ + pull_ops(line, old(self).half_period));
        Ok(())
    }

    /// Releases `line` and returns the level read back, as one bit.
    fn release<F: Fn(Action) -> Result<u8, E>, E>(&mut self, io: &F, line: Line) -> (r: Result<u8, E>)
        requires
            old(self).wf(),
            serves(io),
        ensures
            never_fails(io) ==> r is Ok,
            r is Err ==> final(self).ops@.len() < old(self).ops@.len() + (release_ops(line, old(self).half_period)).len()
                && final(self).ops@ =~= (old(self).ops@ + release_ops(line, old(self).half_period)).take(final(self).ops@.len() as int),
            r matches Err(e) ==> from_io(io, e),
            final(self).wf(),
            final(self).grows(old(self)),
            final(self).answered(io, old(self).ops@.len() as int),
            final(self).half_period == old(self).half_period,
            final(self).events == old(self).events,
            final(self).marks == old(self).marks,
            r matches Ok(v) ==> {
                &&& v == level_bit(final(self).replies@[old(self).ops@.len() as int + 2])
                &&& final(self).ops@ == old(self).ops@ + release_ops(line, old(self).half_period)
                &&& released(final(self).ops@, line)
                &&& forall|l: Line| l != line ==> #[trigger] released(final(self).ops@, l) == released(old(self).ops@, l)
                &&& forall|l: Line| #[trigger] pulls(final(self).ops@, l) == pulls(old(self).ops@, l)
            },
    {
        self.perform(io, Action::Release(line))?;
        self.perform(io, Action::Delay(self.half_period))?;
        let v = self.perform(io, Action::Sample(line))?;
        assert(self.ops@ =~= old(self).ops@ + release_ops(line, old(self).half_period));
        Ok(if v == 0 { 0 } else { 1 })
    }

    /// Releases the clock; if it still reads low (a peer holds it), waits
    /// once, long. Returns whether it waited.
    #[verifier::rlimit(100)]
    #[verifier::spinoff_prover]
    fn wait_scl_release<F: Fn(Action) -> Result<u8, E>, E>(&mut self, io: &F) -> (r: Result<bool, E>)
        requires
            old(self).wf(),
            serves(io),
        ensures
            never_fails(io) ==> r is Ok,
            r matches Err(e) ==> from_io(io, e),
            final(self).wf(),
            final(self).grows(old(self)),
            final(self).answered(io, old(self).ops@.len() as int),
            final(self).half_period == old(self).half_period,
            final(self).events == old(self).events,
            final(self).marks == old(self).marks,
            r matches Ok(s) ==> {
                &&& s == (final(self).replies@[old(self).ops@.len() as int + 2] == 0)
                &&& final(self).ops@ == old(self).ops@ + wait_clock_ops(old(self).half_period, s)
                &&& released(final(self).ops@, Line::Clock)
                &&& released(final(self).ops@, Line::Data) == released(old(self).ops@, Line::Data)
                &&& forall|l: Line| #[trigger] pulls(final(self).ops@, l) == pulls(old(self).ops@, l)
            },
    {
        self.perform(io, Action::Release(Line::Clock))?;
        self.perform(io, Action::Delay(self.half_period))?;
        let v = self.perform(io, Action::Sample(Line::Clock))?;
        let stretched = v == 0;
        if stretched {
            self.perform(io, Action::Delay(STRETCH_WAIT_US))?;
        }
        self.perform(io, Action::Delay(self.half_period))?;
        assert(self.ops@ =~= old(self).ops@ + wait_clock_ops(old(self).half_period, stretched));
        Ok(stretched)
    }

    /// Reads one bit: the data line is let go, the clock is let go, the data
    /// line is read, then both lines are pulled low again.
    #[verifier::rlimit(100)]
    #[verifier::spinoff_prover]
    pub fn read_bit<F: Fn(Action) -> Result<u8, E>, E>(&mut self, io: &F) -> (r: Result<u8, E>)
        requires
            old(self).wf(),
            serves(io),
        ensures
            never_fails(io) ==> r is Ok,
            r matches Err(e) ==> from_io(io, e),
            final(self).wf(),
            final(self).grows(old(self)),
            final(self).answered(io, old(self).wire().len() as int),
            r matches Ok(b) ==> {
                let n = old(self).wire().len() as int;
                let s = final(self).replies()[n + 5] == 0;
                &&& b <= 1
                &&& final(self).wire() == old(self).wire() + read_bit_ops(old(self).half_period_us(), s)
                &&& b == level_bit(final(self).replies()[n + 3 + wait_len(s)])
                &&& final(self).history() == old(self).history().push(BusEvent::Received(b))
                &&& !released(final(self).wire(), Line::Clock)
                &&& !released(final(self).wire(), Line::Data)
            },
    {
        let h = self.half_period;
        let ghost n = self.ops@.len() as int;
        proof {
            if self.marks@.len() > 0 {
                assert(self.marks@[self.marks@.len() - 1] < self.ops@.len());
            }
        }
        self.release(io, Line::Data)?;
        let s = self.wait_scl_release(io)?;
        let v = self.perform(io, Action::Sample(Line::Data))?;
        self.pull(io, Line::Clock)?;
        self.pull(io, Line::Data)?;
        let b: u8 = if v == 0 { 0 } else { 1 };
        proof {
            let seg = read_bit_ops(h, s);
            assert(self.ops@ =~= old(self).ops@ + seg);
            assert(self.ops@.subrange(n, n + seg.len()) =~= seg);
            assert(event_ops(h, BusEvent::Received(b), self.replies@, n) == seg);
            lemma_consistent_push(h, self.ops@, self.replies@, self.events@, self.marks@, BusEvent::Received(b), n);
        }
        self.events = Ghost(self.events@.push(BusEvent::Received(b)));
        self.marks = Ghost(self.marks@.push(n));
        Ok(b)
    }

    /// Writes one bit: 1 lets the data line go, anything else pulls it low;
    /// then the clock is let go and both lines are pulled low again.
    #[verifier::rlimit(100)]
    #[verifier::spinoff_prover]
    pub fn write_bit<F: Fn(Action) -> Result<u8, E>, E>(&mut self, io: &F, bit: u8) -> (r: Result<(), E>)
        requires
            old(self).wf(),
            serves(io),
        ensures
            never_fails(io) ==> r is Ok,
            r matches Err(e) ==> from_io(io, e),
            final(self).wf(),
            final(self).grows(old(self)),
            final(self).answered(io, old(self).wire().len() as int),
            r is Ok ==> {
                let n = old(self).wire().len() as int;
                let s = final(self).replies()[n + (if bit == 1 { 3int } else { 2int }) + 2] == 0;
                &&& final(self).wire() == old(self).wire() + write_bit_ops(old(self).half_period_us(), bit, s)
                &&& final(self).history() == old(self).history().push(BusEvent::Sent(if bit == 1 { 1u8 } else { 0u8 }))
                &&& !released(final(self).wire(), Line::Clock)
                &&& !released(final(self).wire(), Line::Data)
            },
    {
        let h = self.half_period;
        let ghost n = self.ops@.len() as int;
        proof {
            if self.marks@.len() > 0 {
                assert(self.marks@[self.marks@.len() - 1] < self.ops@.len());
            }
        }
        if bit == 1 {
            self.release(io, Line::Data)?;
        } else {
            self.pull(io, Line::Data)?;
        }
        let s = self.wait_scl_release(io)?;
        self.pull(io, Line::Clock)?;
        self.pull(io, Line::Data)?;
        let b: u8 = if bit == 1 { 1 } else { 0 };
        proof {
            let seg = write_bit_ops(h, bit, s);
            assert(self.ops@ =~= old(self).ops@ + seg);
            assert(self.ops@.subrange(n, n + seg.len()) =~= seg);
            assert(write_bit_ops(h, b, s) == seg);
            assert(event_ops(h, BusEvent::Sent(b), self.replies@, n) == seg);
            lemma_consistent_push(h, self.ops@, self.replies@, self.events@, self.marks@, BusEvent::Sent(b), n);
        }
        self.events = Ghost(self.events@.push(BusEvent::Sent(b)));
        self.marks = Ghost(self.marks@.push(n));
        Ok(())
    }

    /// Reads a byte, most significant bit first, then acknowledges it with 0
    /// when `send_ack` holds and with 1 otherwise.
    #[verifier::rlimit(100)]
    #[verifier::spinoff_prover]
    pub fn read_byte<F: Fn(Action) -> Result<u8, E>, E>(&mut self, io: &F, send_ack: bool) -> (r: Result<u8, E>)
        requires
            old(self).wf(),
            serves(io),
        ensures
            never_fails(io) ==> r is Ok,
            r matches Err(e) ==> from_io(io, e),
            final(self).wf(),
            final(self).grows(old(self)),
            final(self).answered(io, old(self).wire().len() as int),
            r matches Ok(b) ==> {
                &&& final(self).history() == old(self).history() + received_byte(b, send_ack)
                &&& final(self).wire() == old(self).wire() + bits_ops(
                    old(self).half_period_us(),
                    received_kinds(send_ack),
                    final(self).replies(),
                    old(self).wire().len() as int,
                )
                &&& !released(final(self).wire(), Line::Clock)
                &&& !released(final(self).wire(), Line::Data)
            },
    {
        let ghost h = self.half_period;
        let ghost n = self.ops@.len() as int;
        assert(self.ops@ =~= old(self).ops@ + bits_ops(h, Seq::new(0, |i: int| 2u8), self.replies@, n));
        let mut byte: u8 = 0;
        let mut k: u8 = 0;
        let ghost bits: Seq<u8> = Seq::empty();
        while k < 8
            invariant
                k <= 8,
                serves(io),
                self.wf(),
                self.grows(old(self)),
                self.answered(io, old(self).wire().len() as int),
                bits.len() == k,
                forall|i: int| 0 <= i < k ==> #[trigger] bits[i] == (byte >> ((k - 1 - i) as u8)) & 1u8,
                self.events@ == old(self).events@ + Seq::new(k as nat, |i: int| BusEvent::Received(bits[i])),
                self.half_period == h,
                n == old(self).ops@.len(),
                self.ops@ == old(self).ops@ + bits_ops(h, Seq::new(k as nat, |i: int| 2u8), self.replies@, n),
            decreases 8 - k,
        {
            let ghost kinds = Seq::new(k as nat, |i: int| 2u8);
            let ghost rep0 = self.replies@;
            let b = self.read_bit(io)?;
            proof {
                lemma_bits_ops_frame(h, kinds, rep0, self.replies@, n);
                lemma_bits_ops_push(h, kinds, 2u8, self.replies@, n);
                assert(Seq::new((k + 1) as nat, |i: int| 2u8) =~= kinds.push(2u8));
                assert(self.ops@ =~= old(self).ops@ + bits_ops(h, kinds.push(2u8), self.replies@, n));
            }
            let ghost prev = byte;
            proof {
                assert forall|i: int| 0 <= i < k + 1 implies #[trigger] bits.push(b)[i] == (((prev << 1u8) | b) >> ((k - i) as u8)) & 1u8 by {
                    if i < k {
                        lemma_shift_in(prev, b, (k - 1 - i) as u8);
                    } else {
                        lemma_shift_in(prev, b, 0);
                    }
                }
                assert(self.events@ =~= old(self).events@ + Seq::new((k + 1) as nat, |i: int| BusEvent::Received(bits.push(b)[i])));
                bits = bits.push(b);
            }
            byte = (byte << 1u8) | b;
            k = k + 1;
        }
        assert(Seq::new(8, |i: int| BusEvent::Received(bits[i])) =~= Seq::new(8, |i: int| BusEvent::Received(bit_at(byte, i))));
        let ack: u8 = if send_ack { 0 } else { 1 };
        let ghost kinds = Seq::new(8, |i: int| 2u8);
        let ghost rep0 = self.replies@;
        self.write_bit(io, ack)?;
        proof {
            lemma_bits_ops_frame(h, kinds, rep0, self.replies@, n);
            lemma_bits_ops_push(h, kinds, ack, self.replies@, n);
            assert(received_kinds(send_ack) =~= kinds.push(ack));
            assert(self.ops@ =~= old(self).ops@ + bits_ops(h, received_kinds(send_ack), self.replies@, n));
        }
        assert(self.events@ =~= old(self).events@ + received_byte(byte, send_ack));
        Ok(byte)
    }

    /// Writes a byte, most significant bit first, then reads the peer's
    /// answer: 0 for an acknowledgement, 1 for none. A missing
    /// acknowledgement is returned, not treated as a failure.
    #[verifier::rlimit(100)]
    #[verifier::spinoff_prover]
    pub fn write_byte<F: Fn(Action) -> Result<u8, E>, E>(&mut self, io: &F, byte: u8) -> (r: Result<u8, E>)
        requires
            old(self).wf(),
            serves(io),
        ensures
            never_fails(io) ==> r is Ok,
            r matches Err(e) ==> from_io(io, e),
            final(self).wf(),
            final(self).grows(old(self)),
            final(self).answered(io, old(self).wire().len() as int),
            r matches Ok(a) ==> {
                &&& a <= 1
                &&& final(self).wire() == old(self).wire() + bits_ops(
                    old(self).half_period_us(),
                    sent_kinds(byte),
                    final(self).replies(),
                    old(self).wire().len() as int,
                )
                &&& final(self).history() == old(self).history() + sent_byte(byte, a)
                &&& !released(final(self).wire(), Line::Clock)
                &&& !released(final(self).wire(), Line::Data)
            },
    {
        let ghost h = self.half_period;
        let ghost n = self.ops@.len() as int;
        let mut k: u8 = 0;
        assert(self.ops@ =~= old(self).ops@ + bits_ops(h, Seq::new(0, |i: int| bit_at(byte, i)), self.replies@, n));
        while k < 8
            invariant
                k <= 8,
                serves(io),
                self.wf(),
                self.grows(old(self)),
                self.answered(io, old(self).wire().len() as int),
                self.events@ == old(self).events@ + Seq::new(k as nat, |i: int| BusEvent::Sent(bit_at(byte, i))),
                self.half_period == h,
                n == old(self).ops@.len(),
                self.ops@ == old(self).ops@ + bits_ops(h, Seq::new(k as nat, |i: int| bit_at(byte, i)), self.replies@, n),
            decreases 8 - k,
        {
            let shift: u8 = 7 - k;
            let out_bit = (byte >> shift) & 1u8;
            assert((byte >> shift) & 1u8 <= 1u8) by (bit_vector);
            assert(out_bit == bit_at(byte, k as int));
            let ghost kinds = Seq::new(k as nat, |i: int| bit_at(byte, i));
            let ghost rep0 = self.replies@;
            proof {
                lemma_bit_kinds(byte, k as int);
            }
            self.write_bit(io, out_bit)?;
            proof {
                lemma_bits_ops_frame(h, kinds, rep0, self.replies@, n);
                lemma_bits_ops_push(h, kinds, out_bit, self.replies@, n);
                assert(Seq::new((k + 1) as nat, |i: int| bit_at(byte, i)) =~= kinds.push(out_bit));
                assert(self.ops@ =~= old(self).ops@ + bits_ops(h, kinds.push(out_bit), self.replies@, n));
            }
            assert(self.events@ =~= old(self).events@ + Seq::new((k + 1) as nat, |i: int| BusEvent::Sent(bit_at(byte, i))));
            k = k + 1;
        }
        let ghost kinds = Seq::new(8, |i: int| bit_at(byte, i));
        let ghost rep0 = self.replies@;
        proof {
            lemma_bit_kinds(byte, 8);
        }
        let ack = self.read_bit(io)?;
        proof {
            lemma_bits_ops_frame(h, kinds, rep0, self.replies@, n);
            lemma_bits_ops_push(h, kinds, 2u8, self.replies@, n);
            assert(sent_kinds(byte) =~= kinds.push(2u8));
            assert(self.ops@ =~= old(self).ops@ + bits_ops(h, sent_kinds(byte), self.replies@, n));
        }
        assert(self.events@ =~= old(self).events@ + sent_byte(byte, ack));
        Ok(ack)
    }

    /// One burst of recovery pulses, then a pause and a look at the data
    /// line. Returns whether the data line read high.
    #[verifier::rlimit(100)]
    #[verifier::spinoff_prover]
    fn burst<F: Fn(Action) -> Result<u8, E>, E>(&mut self, io: &F) -> (r: Result<bool, E>)
        requires
            old(self).wf(),
            serves(io),
        ensures
            never_fails(io) ==> r is Ok,
            r matches Err(e) ==> from_io(io, e),
            final(self).wf(),
            final(self).grows(old(self)),
            final(self).answered(io, old(self).wire().len() as int),
            final(self).half_period == old(self).half_period,
            final(self).events == old(self).events,
            final(self).marks == old(self).marks,
            r matches Ok(free) ==> {
                &&& final(self).ops@ == old(self).ops@ + burst_ops(old(self).half_period)
                &&& free == (final(self).replies@[old(self).ops@.len() as int + 51] != 0)
            },
    {
        let ghost h = self.half_period;
        let mut p: u64 = 0;
        assert(self.ops@ =~= old(self).ops@ + pulses(h, 0));
        while p < PULSES_PER_BURST
            invariant
                serves(io),
                self.wf(),
                self.grows(old(self)),
                self.answered(io, old(self).wire().len() as int),
                p <= PULSES_PER_BURST,
                self.half_period == h,
                self.events == old(self).events,
                self.marks == old(self).marks,
                self.ops@ == old(self).ops@ + pulses(h, p as nat),
            decreases PULSES_PER_BURST - p,
        {
            self.pull(io, Line::Clock)?;
            self.release(io, Line::Clock)?;
            assert(self.ops@ =~= old(self).ops@ + pulses(h, (p + 1) as nat));
            p = p + 1;
        }
        proof {
            lemma_pulses_len(h, PULSES_PER_BURST as nat);
        }
        self.perform(io, Action::Delay(RECOVERY_PAUSE_US))?;
        let v = self.perform(io, Action::Sample(Line::Data))?;
        assert(self.ops@ =~= old(self).ops@ + burst_ops(h));
        Ok(v != 0)
    }

    /// Bursts of recovery pulses until the data line reads high after one,
    /// or until the bursts run out. Returns how many bursts were sent.
    #[verifier::rlimit(100)]
    #[verifier::spinoff_prover]
    fn bursts_until_free<F: Fn(Action) -> Result<u8, E>, E>(&mut self, io: &F) -> (r: Result<u64, E>)
        requires
            old(self).wf(),
            serves(io),
        ensures
            never_fails(io) ==> r is Ok,
            r matches Err(e) ==> from_io(io, e),
            final(self).wf(),
            final(self).grows(old(self)),
            final(self).answered(io, old(self).wire().len() as int),
            final(self).half_period == old(self).half_period,
            final(self).events == old(self).events,
            final(self).marks == old(self).marks,
            r matches Ok(k) ==> {
                let m = old(self).ops@.len() as int;
                &&& 1 <= k <= RECOVERY_BURSTS
                &&& final(self).ops@ == old(self).ops@ + bursts(old(self).half_period, k as nat)
                &&& forall|j: int| 0 <= j < k - 1 ==> final(self).replies@[#[trigger] (m + 52 * j + 51)] == 0
                &&& k < RECOVERY_BURSTS ==> final(self).replies@[m + 52 * (k - 1) + 51] != 0
            },
    {
        let ghost h = self.half_period;
        let ghost m = self.ops@.len() as int;
        let mut burst: u64 = 0;
        let mut free = false;
        assert(self.ops@ =~= old(self).ops@ + bursts(h, 0));
        while burst < RECOVERY_BURSTS && !free
            invariant
                serves(io),
                self.wf(),
                self.grows(old(self)),
                self.answered(io, m),
                burst <= RECOVERY_BURSTS,
                self.half_period == h,
                self.events == old(self).events,
                self.marks == old(self).marks,
                m == old(self).ops@.len(),
                self.ops@ == old(self).ops@ + bursts(h, burst as nat),
                bursts(h, burst as nat).len() == bursts_len(burst as nat),
                forall|j: int| 0 <= j < burst - 1 ==> self.replies@[#[trigger] (m + 52 * j + 51)] == 0,
                free ==> 1 <= burst && self.replies@[m + 52 * (burst - 1) + 51] != 0,
                !free && 1 <= burst ==> self.replies@[m + 52 * (burst - 1) + 51] == 0,
            decreases RECOVERY_BURSTS - burst,
        {
            let f = self.burst(io)?;
            burst = burst + 1;
            free = f;
            proof {
                lemma_bursts_len(h, burst as nat);
                lemma_bursts_len(h, (burst - 1) as nat);
                assert(self.ops@ =~= old(self).ops@ + bursts(h, burst as nat));
            }
        }
        Ok(burst)
    }

    /// Pulls both lines low, then a stop condition. Returns whether the
    /// clock was held low.
    #[verifier::rlimit(100)]
    #[verifier::spinoff_prover]
    fn close_recovery<F: Fn(Action) -> Result<u8, E>, E>(&mut self, io: &F) -> (r: Result<bool, E>)
        requires
            old(self).wf(),
            serves(io),
        ensures
            never_fails(io) ==> r is Ok,
            r matches Err(e) ==> from_io(io, e),
            final(self).wf(),
            final(self).grows(old(self)),
            final(self).answered(io, old(self).wire().len() as int),
            final(self).half_period == old(self).half_period,
            final(self).events == old(self).events,
            final(self).marks == old(self).marks,
            r matches Ok(s) ==> {
                &&& s == (final(self).replies@[old(self).ops@.len() as int + 6] == 0)
                &&& final(self).ops@ == old(self).ops@ + pull_ops(Line::Clock, old(self).half_period) + pull_ops(
                    Line::Data,
                    old(self).half_period,
                ) + stop_condition_ops(old(self).half_period, s)
                &&& released(final(self).ops@, Line::Clock)
                &&& released(final(self).ops@, Line::Data)
            },
    {
        let ghost h = self.half_period;
        self.pull(io, Line::Clock)?;
        self.pull(io, Line::Data)?;
        let s = self.wait_scl_release(io)?;
        self.release(io, Line::Data)?;
        assert(self.ops@ =~= old(self).ops@ + pull_ops(Line::Clock, h) + pull_ops(Line::Data, h) + stop_condition_ops(h, s));
        Ok(s)
    }

    /// Frees a data line held low by a peer. The data line is let go and
    /// left an input; then come bursts of clock pulses, each but the last
    /// possible one followed by a pause and a look at the data line, until it
    /// reads high or the bursts run out. Both lines are then pulled low and a
    /// stop condition leaves both released. Whether the line came free is not
    /// reported.
    #[verifier::rlimit(100)]
    #[verifier::spinoff_prover]
    pub fn reset<F: Fn(Action) -> Result<u8, E>, E>(&mut self, io: &F) -> (r: Result<(), E>)
        requires
            old(self).wf(),
            serves(io),
        ensures
            never_fails(io) ==> r is Ok,
            r matches Err(e) ==> from_io(io, e),
            final(self).wf(),
            final(self).grows(old(self)),
            final(self).answered(io, old(self).wire().len() as int),
            r is Ok ==> {
                let n = old(self).wire().len() as int;
                &&& final(self).history() == old(self).history().push(BusEvent::Recovery)
                &&& exists|k: nat| #[trigger] recovery_fits(old(self).half_period_us(), final(self).wire(), final(self).replies(), n, k)
                    && final(self).wire().len() == n + recovery_ops(
                    old(self).half_period_us(),
                    k,
                    final(self).replies()[n + 4 + bursts_len(k) + 6] == 0,
                ).len()
                &&& released(final(self).wire(), Line::Clock)
                &&& released(final(self).wire(), Line::Data)
            },
    {
        let h = self.half_period;
        let ghost n = self.ops@.len() as int;
        proof {
            if self.marks@.len() > 0 {
                assert(self.marks@[self.marks@.len() - 1] < self.ops@.len());
            }
        }
        self.release(io, Line::Data)?;
        self.perform(io, Action::Release(Line::Data))?;
        let ghost q = self.ops@;
        let k = self.bursts_until_free(io)?;
        let ghost r1 = self.replies@;
        let s = self.close_recovery(io)?;
        proof {
            let kk = k as nat;
            lemma_bursts_len(h, kk);
            let seg = recovery_ops(h, kk, s);
            assert(self.ops@ =~= old(self).ops@ + seg);
            assert(self.ops@.subrange(n, n + seg.len()) =~= seg);
            assert forall|j: int| 0 <= j < kk - 1 implies self.replies@[#[trigger] burst_look(n, j)] == 0 by {
                assert(burst_look(n, j) == (n + 4) + 52 * j + 51);
                assert(r1[(n + 4) + 52 * j + 51] == 0);
            }
            if kk < RECOVERY_BURSTS {
                assert(burst_look(n, kk - 1) == (n + 4) + 52 * (kk - 1) + 51);
            }
            assert(s == (self.replies@[n + 4 + bursts_len(kk) + 6] == 0));
            assert(recovery_fits(h, self.ops@, self.replies@, n, kk));
            assert(self.wire().len() == n + recovery_ops(h, kk, self.replies()[n + 4 + bursts_len(kk) + 6] == 0).len());
            lemma_consistent_push(h, self.ops@, self.replies@, self.events@, self.marks@, BusEvent::Recovery, n);
        }
        self.events = Ghost(self.events@.push(BusEvent::Recovery));
        self.marks = Ghost(self.marks@.push(n));
        assert(recovery_fits(h, self.wire(), self.replies(), n, k as nat));
        Ok(())
    }

    /// Lets the data line go and reads it; found low, the bus is recovered.
    /// Returns the level read.
    #[verifier::rlimit(100)]
    #[verifier::spinoff_prover]
    fn probe_idle<F: Fn(Action) -> Result<u8, E>, E>(&mut self, io: &F) -> (r: Result<u8, E>)
        requires
            old(self).wf(),
            serves(io),
        ensures
            never_fails(io) ==> r is Ok,
            r matches Err(e) ==> from_io(io, e),
            final(self).wf(),
            final(self).grows(old(self)),
            final(self).answered(io, old(self).wire().len() as int),
            final(self).half_period == old(self).half_period,
            r matches Ok(v) ==> {
                let n = old(self).ops@.len() as int;
                &&& v == level_bit(final(self).replies@[n + 2])
                &&& final(self).ops@.len() >= n + 3
                &&& final(self).ops@.subrange(n, n + 3) == release_ops(Line::Data, old(self).half_period)
                &&& final(self).events@ == old(self).events@ + seq![BusEvent::Probe(v)] + (if v == 0 {
                    seq![BusEvent::Recovery]
                } else {
                    seq![]
                })
                &&& v != 0 ==> final(self).ops@ == old(self).ops@ + release_ops(Line::Data, old(self).half_period)
                &&& released(final(self).ops@, Line::Data)
            },
    {
        let h = self.half_period;
        let ghost n = self.ops@.len() as int;
        proof {
            if self.marks@.len() > 0 {
                assert(self.marks@[self.marks@.len() - 1] < self.ops@.len());
            }
        }
        let v = self.release(io, Line::Data)?;
        proof {
            assert(self.ops@.subrange(n, n + 3) =~= release_ops(Line::Data, h));
            lemma_consistent_push(h, self.ops@, self.replies@, self.events@, self.marks@, BusEvent::Probe(v), n);
        }
        self.events = Ghost(self.events@.push(BusEvent::Probe(v)));
        self.marks = Ghost(self.marks@.push(n));
        if v == 0 {
            let ghost mid = self.ops@;
            self.reset(io)?;
            assert(self.ops@.subrange(n, n + 3) =~= mid.subrange(n, n + 3));
        }
        assert(self.events@ =~= old(self).events@ + seq![BusEvent::Probe(v)] + (if v == 0 {
            seq![BusEvent::Recovery]
        } else {
            seq![]
        }));
        Ok(v)
    }

    /// A start condition. The data line is let go and read first; found low,
    /// the bus is recovered before the start. Then the clock is let go and
    /// the data line, then the clock, pulled low.
    #[verifier::rlimit(100)]
    #[verifier::spinoff_prover]
    pub fn start<F: Fn(Action) -> Result<u8, E>, E>(&mut self, io: &F) -> (r: Result<(), E>)
        requires
            old(self).wf(),
            serves(io),
        ensures
            never_fails(io) ==> r is Ok,
            r matches Err(e) ==> from_io(io, e),
            final(self).wf(),
            final(self).grows(old(self)),
            final(self).answered(io, old(self).wire().len() as int),
            r is Ok ==> {
                let n = old(self).wire().len() as int;
                let h = old(self).half_period_us();
                let v = level_bit(final(self).replies()[n + 2]);
                &&& final(self).wire().len() >= n + 3
                &&& final(self).wire().subrange(n, n + 3) == release_ops(Line::Data, h)
                &&& final(self).history() == old(self).history() + start_events(v)
                &&& v != 0 ==> final(self).wire() == old(self).wire() + release_ops(Line::Data, h)
                    + start_condition_ops(h, final(self).replies()[n + 5] == 0)
                &&& !released(final(self).wire(), Line::Clock)
                &&& !released(final(self).wire(), Line::Data)
            },
    {
        let h = self.half_period;
        let ghost n = self.ops@.len() as int;
        proof {
            if self.marks@.len() > 0 {
                assert(self.marks@[self.marks@.len() - 1] < self.ops@.len());
            }
        }
        let v = self.probe_idle(io)?;
        let ghost m = self.ops@.len() as int;
        let ghost pre = self.ops@;
        let ghost rep1 = self.replies@;
        proof {
            if self.marks@.len() > 0 {
                assert(self.marks@[self.marks@.len() - 1] < self.ops@.len());
            }
        }
        let s = self.wait_scl_release(io)?;
        self.pull(io, Line::Data)?;
        self.pull(io, Line::Clock)?;
        proof {
            let seg = start_condition_ops(h, s);
            assert(self.ops@ =~= pre + seg);
            assert(self.ops@.subrange(m, m + seg.len()) =~= seg);
            assert(self.ops@.take(m) =~= pre);
            lemma_consistent_push(h, self.ops@, self.replies@, self.events@, self.marks@, BusEvent::Start, m);
        }
        assert(self.ops@.len() >= n + 3);
        assert(self.replies@[n + 2] == rep1[n + 2]);
        assert(self.ops@.subrange(n, n + 3) =~= pre.subrange(n, n + 3));
        assert(s == (self.replies@[m + 2] == 0));
        self.events = Ghost(self.events@.push(BusEvent::Start));
        self.marks = Ghost(self.marks@.push(m));
        assert(self.events@ =~= old(self).events@ + start_events(v));
        proof {
            if v != 0 {
                assert(self.ops@ =~= old(self).ops@ + release_ops(Line::Data, h) + start_condition_ops(h, s));
            }
        }
        Ok(())
    }

    /// A stop condition: the clock is let go, then the data line. If the
    /// data line still reads low, the bus is recovered.
    #[verifier::rlimit(100)]
    #[verifier::spinoff_prover]
    pub fn stop<F: Fn(Action) -> Result<u8, E>, E>(&mut self, io: &F) -> (r: Result<(), E>)
        requires
            old(self).wf(),
            serves(io),
        ensures
            never_fails(io) ==> r is Ok,
            r matches Err(e) ==> from_io(io, e),
            final(self).wf(),
            final(self).grows(old(self)),
            final(self).answered(io, old(self).wire().len() as int),
            r is Ok ==> {
                let n = old(self).wire().len() as int;
                let h = old(self).half_period_us();
                let s = final(self).replies()[n + 2] == 0;
                let v = level_bit(final(self).replies()[n + wait_len(s) + 2]);
                &&& final(self).wire().len() >= n + wait_len(s) + 3
                &&& final(self).wire().subrange(n, n + wait_len(s) + 3) == stop_condition_ops(h, s)
                &&& final(self).history() == old(self).history() + stop_events(v)
                &&& v != 0 ==> final(self).wire() == old(self).wire() + stop_condition_ops(h, s)
                &&& released(final(self).wire(), Line::Clock)
                &&& released(final(self).wire(), Line::Data)
            },
    {
        let h = self.half_period;
        let ghost n = self.ops@.len() as int;
        proof {
            if self.marks@.len() > 0 {
                assert(self.marks@[self.marks@.len() - 1] < self.ops@.len());
            }
        }
        let s = self.wait_scl_release(io)?;
        let v = self.release(io, Line::Data)?;
        proof {
            let seg = stop_condition_ops(h, s);
            let w = wait_len(s);
            assert(self.ops@ =~= old(self).ops@ + seg);
            assert(self.ops@.subrange(n, n + seg.len()) =~= seg);
            assert(self.ops@.subrange(n + w, n + w + 3) =~= release_ops(Line::Data, h));
            lemma_consistent_push(h, self.ops@, self.replies@, self.events@, self.marks@, BusEvent::Stop, n);
            lemma_consistent_push(
                h,
                self.ops@,
                self.replies@,
                self.events@.push(BusEvent::Stop),
                self.marks@.push(n),
                BusEvent::Probe(v),
                n + w,
            );
        }
        self.events = Ghost(self.events@.push(BusEvent::Stop).push(BusEvent::Probe(v)));
        self.marks = Ghost(self.marks@.push(n).push(n + wait_len(s)));
        if v == 0 {
            self.reset(io)?;
        }
        assert(self.events@ =~= old(self).events@ + stop_events(v));
        Ok(())
    }

    /// Fills `input` byte by byte, acknowledging every byte but the last.
    #[verifier::rlimit(100)]
    #[verifier::spinoff_prover]
    fn read_slice<F: Fn(Action) -> Result<u8, E>, E>(&mut self, io: &F, input: &mut [u8]) -> (r: Result<(), E>)
        requires
            old(self).wf(),
            serves(io),
        ensures
            never_fails(io) ==> r is Ok,
            r matches Err(e) ==> from_io(io, e),
            final(self).wf(),
            final(self).grows(old(self)),
            final(self).answered(io, old(self).wire().len() as int),
            final(self).half_period == old(self).half_period,
            final(input)@.len() == old(input)@.len(),
            r is Ok ==> final(self).events@ == old(self).events@ + received_bytes(final(input)@, final(input)@.len())
                && final(self).ops@ == old(self).ops@ + bits_ops(
                old(self).half_period,
                received_run(final(input)@.len(), final(input)@.len()),
                final(self).replies@,
                old(self).ops@.len() as int,
            ),
    {
        let n = input.len();
        let ghost h = self.half_period;
        let ghost n0 = self.ops@.len() as int;
        assert(self.ops@ =~= old(self).ops@ + bits_ops(h, received_run(0, n as nat), self.replies@, n0));
        let mut i: usize = 0;
        while i < n
            invariant
                serves(io),
                self.wf(),
                self.grows(old(self)),
                self.answered(io, old(self).wire().len() as int),
                n == input@.len(),
                n == old(input)@.len(),
                i <= n,
                self.half_period == old(self).half_period,
                self.events@ == old(self).events@ + received_bytes(input@.take(i as int), n as nat),
                self.half_period == h,
                n0 == old(self).ops@.len(),
                self.ops@ == old(self).ops@ + bits_ops(h, received_run(i as nat, n as nat), self.replies@, n0),
            decreases n - i,
        {
            let send_ack = i != n - 1;
            let ghost run = received_run(i as nat, n as nat);
            let ghost rep0 = self.replies@;
            let b = self.read_byte(io, send_ack)?;
            proof {
                lemma_bits_ops_frame(h, run, rep0, self.replies@, n0);
                lemma_bits_ops_concat(h, run, received_kinds(send_ack), self.replies@, n0);
                assert(received_run((i + 1) as nat, n as nat) == run + received_kinds(send_ack));
                assert(self.ops@ =~= old(self).ops@ + bits_ops(h, received_run((i + 1) as nat, n as nat), self.replies@, n0));
            }
            let ghost before = input@;
            input[i] = b;
            assert(input@.take(i + 1).drop_last() =~= before.take(i as int));
            assert(self.events@ =~= old(self).events@ + received_bytes(input@.take(i + 1), n as nat));
            i = i + 1;
        }
        assert(input@.take(n as int) =~= input@);
        Ok(())
    }

    /// Writes each byte of `output` in order; missing acknowledgements do not
    /// stop it.
    /// Returns the answers to the bytes.
    #[verifier::rlimit(100)]
    #[verifier::spinoff_prover]
    fn write_slice<F: Fn(Action) -> Result<u8, E>, E>(&mut self, io: &F, output: &[u8]) -> (r: Result<Ghost<Seq<u8>>, E>)
        requires
            old(self).wf(),
            serves(io),
        ensures
            never_fails(io) ==> r is Ok,
            r matches Err(e) ==> from_io(io, e),
            final(self).wf(),
            final(self).grows(old(self)),
            final(self).answered(io, old(self).wire().len() as int),
            final(self).half_period == old(self).half_period,
            r matches Ok(acks) ==> acks@.len() == output@.len()
                && final(self).events@ == old(self).events@ + sent_bytes(output@, acks@)
                && final(self).ops@ == old(self).ops@ + bits_ops(
                old(self).half_period,
                sent_run(output@),
                final(self).replies@,
                old(self).ops@.len() as int,
            ),
    {
        let ghost acks: Seq<u8> = Seq::empty();
        let ghost h = self.half_period;
        let ghost n = self.ops@.len() as int;
        assert(output@.take(0) =~= Seq::<u8>::empty());
        assert(self.ops@ =~= old(self).ops@ + bits_ops(h, sent_run(output@.take(0)), self.replies@, n));
        let mut i: usize = 0;
        while i < output.len()
            invariant
                serves(io),
                self.wf(),
                self.grows(old(self)),
                self.answered(io, old(self).wire().len() as int),
                i <= output@.len(),
                acks.len() == i,
                self.half_period == old(self).half_period,
                self.events@ == old(self).events@ + sent_bytes(output@.take(i as int), acks),
                self.half_period == h,
                n == old(self).ops@.len(),
                self.ops@ == old(self).ops@ + bits_ops(h, sent_run(output@.take(i as int)), self.replies@, n),
            decreases output@.len() - i,
        {
            let ghost run = sent_run(output@.take(i as int));
            let ghost rep0 = self.replies@;
            let a = self.write_byte(io, output[i])?;
            proof {
                lemma_bits_ops_frame(h, run, rep0, self.replies@, n);
                lemma_bits_ops_concat(h, run, sent_kinds(output@[i as int]), self.replies@, n);
                assert(output@.take(i + 1).drop_last() =~= output@.take(i as int));
                assert(sent_run(output@.take(i + 1)) == run + sent_kinds(output@[i as int]));
                assert(self.ops@ =~= old(self).ops@ + bits_ops(h, sent_run(output@.take(i + 1)), self.replies@, n));
                assert(output@.take(i + 1).drop_last() =~= output@.take(i as int));
                assert(acks.push(a).drop_last() =~= acks);
                acks = acks.push(a);
                assert(self.events@ =~= old(self).events@ + sent_bytes(output@.take(i + 1), acks));
            }
            i = i + 1;
        }
        assert(output@.take(output@.len() as int) =~= output@);
        Ok(Ghost(acks))
    }

    /// A write transfer: start, the address with the write bit, each byte of
    /// `bytes`, stop. Missing acknowledgements do not stop it.
    #[verifier::rlimit(100)]
    #[verifier::spinoff_prover]
    pub fn write<F: Fn(Action) -> Result<u8, E>, E>(&mut self, io: &F, address: u8, bytes: &[u8]) -> (r: Result<(), E>)
        requires
            old(self).wf(),
            serves(io),
        ensures
            never_fails(io) ==> r is Ok,
            r matches Err(e) ==> from_io(io, e),
            final(self).wf(),
            final(self).grows(old(self)),
            final(self).answered(io, old(self).wire().len() as int),
            final(self).half_period_us() == old(self).half_period_us(),
            r is Ok ==> exists|probes: Seq<u8>, acks: Seq<u8>| {
                &&& probes.len() == 2
                &&& acks.len() == bytes@.len() + 1
                &&& final(self).history() == old(self).history() + write_events(address, bytes@, probes, acks)
            },
            r is Ok ==> released(final(self).wire(), Line::Clock) && released(final(self).wire(), Line::Data),
            r is Ok && write_was_clean(
                old(self).half_period_us(),
                address,
                bytes@,
                final(self).replies(),
                old(self).wire().len() as int,
            ) ==> final(self).wire() == old(self).wire() + write_ops(
                old(self).half_period_us(),
                address,
                bytes@,
                final(self).replies(),
                old(self).wire().len() as int,
            ),
    {
        let ghost n0 = self.ops@.len() as int;
        let ghost h = self.half_period;
        let w = self.send_phase(io, address, bytes)?;
        let ghost h3 = self.events@;
        let ghost m3 = self.ops@.len() as int;
        let ghost rep3 = self.replies@;
        let ghost rep_ops3 = self.ops@;
        self.stop(io)?;
        let ghost p1 = level_bit(self.replies@[m3 + wait_len(self.replies@[m3 + 2] == 0) + 2]);
        proof {
            lemma_write_wire(h, address, bytes@, old(self).ops@, rep_ops3, rep3, self.ops@, self.replies@, n0, w@.0);
        }
        proof {
            let probes = seq![w@.0, p1];
            let acks = seq![w@.1] + w@.2;
            assert(acks.skip(1) =~= w@.2);
            let e0 = start_events(w@.0);
            let e1 = sent_byte(address_byte(address, false), w@.1);
            let e2 = sent_bytes(bytes@, w@.2);
            let e3 = stop_events(p1);
            assert(write_events(address, bytes@, probes, acks) == e0 + e1 + e2 + e3);
            assert(h3 == old(self).events@ + e0 + e1 + e2);
            assert(self.events@ =~= old(self).events@ + (e0 + e1 + e2 + e3));
        }
        Ok(())
    }

    /// A read transfer: start, the address with the read bit, then `buffer`
    /// filled in order, every byte acknowledged but the last; then stop.
    #[verifier::rlimit(100)]
    #[verifier::spinoff_prover]
    pub fn read<F: Fn(Action) -> Result<u8, E>, E>(&mut self, io: &F, address: u8, buffer: &mut [u8]) -> (r: Result<(), E>)
        requires
            old(self).wf(),
            serves(io),
        ensures
            never_fails(io) ==> r is Ok,
            r matches Err(e) ==> from_io(io, e),
            final(self).wf(),
            final(self).grows(old(self)),
            final(self).answered(io, old(self).wire().len() as int),
            final(self).half_period_us() == old(self).half_period_us(),
            final(buffer)@.len() == old(buffer)@.len(),
            r is Ok ==> exists|probes: Seq<u8>, ack: u8| {
                &&& probes.len() == 2
                &&& final(self).history() == old(self).history() + read_events(address, final(buffer)@, probes, ack)
            },
            r is Ok ==> released(final(self).wire(), Line::Clock) && released(final(self).wire(), Line::Data),
            r is Ok && read_was_clean(
                old(self).half_period_us(),
                address,
                final(buffer)@.len(),
                final(self).replies(),
                old(self).wire().len() as int,
            ) ==> final(self).wire() == old(self).wire() + read_ops(
                old(self).half_period_us(),
                address,
                final(buffer)@.len(),
                final(self).replies(),
                old(self).wire().len() as int,
            ),
    {
        let ghost n0 = self.ops@.len() as int;
        let ghost h = self.half_period;
        let g = self.receive_phase(io, address, buffer)?;
        let ghost m3 = self.ops@.len() as int;
        let ghost rep3 = self.replies@;
        let ghost ops3 = self.ops@;
        self.stop(io)?;
        proof {
            lemma_read_wire(h, address, buffer@.len(), old(self).ops@, ops3, rep3, self.ops@, self.replies@, n0, g@.0);
        }
        let ghost p1 = level_bit(self.replies@[m3 + wait_len(self.replies@[m3 + 2] == 0) + 2]);
        proof {
            let probes = seq![g@.0, p1];
            assert(self.events@ =~= old(self).events@ + read_events(address, buffer@, probes, g@.1));
        }
        Ok(())
    }

    /// Start, the address with the write bit, then `bytes`. Returns the
    /// level that the start found, the answer to the address and the answers
    /// to the bytes.
    #[verifier::rlimit(100)]
    #[verifier::spinoff_prover]
    fn send_phase<F: Fn(Action) -> Result<u8, E>, E>(&mut self, io: &F, address: u8, bytes: &[u8]) -> (r: Result<
        Ghost<(u8, u8, Seq<u8>)>,
        E,
    >)
        requires
            old(self).wf(),
            serves(io),
        ensures
            never_fails(io) ==> r is Ok,
            r matches Err(e) ==> from_io(io, e),
            final(self).wf(),
            final(self).grows(old(self)),
            final(self).answered(io, old(self).wire().len() as int),
            final(self).half_period == old(self).half_period,
            r matches Ok(g) ==> {
                let n = old(self).ops@.len() as int;
                let h = old(self).half_period;
                &&& g@.2.len() == bytes@.len()
                &&& final(self).ops@.len() >= n + 3
                &&& g@.0 == level_bit(final(self).replies@[n + 2])
                &&& g@.0 != 0 ==> final(self).ops@ == old(self).ops@ + start_ops(h, final(self).replies@, n) + bits_ops(
                    h,
                    sent_kinds(address_byte(address, false)) + sent_run(bytes@),
                    final(self).replies@,
                    n + start_ops(h, final(self).replies@, n).len(),
                )
                &&& final(self).events@ == old(self).events@ + start_events(g@.0) + sent_byte(
                    address_byte(address, false),
                    g@.1,
                ) + sent_bytes(bytes@, g@.2)
            },
    {
        let ghost n0 = self.ops@.len() as int;
        let ghost h = self.half_period;
        self.start(io)?;
        let ghost p0 = level_bit(self.replies@[n0 + 2]);
        let ghost m1 = self.ops@.len() as int;
        let a0 = self.write_byte(io, (address << 1u8) | 0u8)?;
        let ghost rep2 = self.replies@;
        let tail = self.write_slice(io, bytes)?;
        proof {
            let ka = sent_kinds(address_byte(address, false));
            lemma_bits_ops_frame(h, ka, rep2, self.replies@, m1);
            lemma_bits_ops_concat(h, ka, sent_run(bytes@), self.replies@, m1);
            if p0 != 0 {
                assert(start_ops(h, self.replies@, n0).len() == m1 - n0);
                assert(self.ops@ =~= old(self).ops@ + start_ops(h, self.replies@, n0) + bits_ops(
                    h,
                    ka + sent_run(bytes@),
                    self.replies@,
                    m1,
                ));
            }
        }
        Ok(Ghost((p0, a0, tail@)))
    }

    /// A repeated start, the address with the read bit, then `buffer` filled
    /// as by `read`. Returns the level that the start found and the answer to
    /// the address.
    #[verifier::rlimit(100)]
    #[verifier::spinoff_prover]
    fn receive_phase<F: Fn(Action) -> Result<u8, E>, E>(&mut self, io: &F, address: u8, buffer: &mut [u8]) -> (r: Result<
        Ghost<(u8, u8)>,
        E,
    >)
        requires
            old(self).wf(),
            serves(io),
        ensures
            never_fails(io) ==> r is Ok,
            r matches Err(e) ==> from_io(io, e),
            final(self).wf(),
            final(self).grows(old(self)),
            final(self).answered(io, old(self).wire().len() as int),
            final(self).half_period == old(self).half_period,
            final(buffer)@.len() == old(buffer)@.len(),
            r matches Ok(g) ==> final(self).events@ == old(self).events@ + start_events(g@.0) + sent_byte(
                address_byte(address, true),
                g@.1,
            ) + received_bytes(final(buffer)@, final(buffer)@.len()),
            r matches Ok(g) ==> {
                let n = old(self).ops@.len() as int;
                let h = old(self).half_period;
                &&& final(self).ops@.len() >= n + 3
                &&& g@.0 == level_bit(final(self).replies@[n + 2])
                &&& g@.0 != 0 ==> final(self).ops@ == old(self).ops@ + start_ops(h, final(self).replies@, n) + bits_ops(
                    h,
                    sent_kinds(address_byte(address, true)) + received_run(final(buffer)@.len(), final(buffer)@.len()),
                    final(self).replies@,
                    n + start_ops(h, final(self).replies@, n).len(),
                )
            },
    {
        let ghost n0 = self.ops@.len() as int;
        let ghost h = self.half_period;
        self.start(io)?;
        let ghost p0 = level_bit(self.replies@[n0 + 2]);
        let ghost m1 = self.ops@.len() as int;
        let a0 = self.write_byte(io, (address << 1u8) | 1u8)?;
        let ghost rep2 = self.replies@;
        self.read_slice(io, buffer)?;
        proof {
            let ka = sent_kinds(address_byte(address, true));
            let kr = received_run(buffer@.len(), buffer@.len());
            lemma_bits_ops_frame(h, ka, rep2, self.replies@, m1);
            lemma_bits_ops_concat(h, ka, kr, self.replies@, m1);
            if p0 != 0 {
                assert(start_ops(h, self.replies@, n0).len() == m1 - n0);
                assert(self.ops@ =~= old(self).ops@ + start_ops(h, self.replies@, n0) + bits_ops(h, ka + kr, self.replies@, m1));
            }
        }
        Ok(Ghost((p0, a0)))
    }

    /// A combined transfer: start, the address with the write bit, `bytes`,
    /// a repeated start with no stop before it, the address with the read
    /// bit, `buffer` filled as by `read`, stop.
    #[verifier::rlimit(100)]
    #[verifier::spinoff_prover]
    pub fn write_read<F: Fn(Action) -> Result<u8, E>, E>(
        &mut self,
        io: &F,
        address: u8,
        bytes: &[u8],
        buffer: &mut [u8],
    ) -> (r: Result<(), E>)
        requires
            old(self).wf(),
            serves(io),
        ensures
            never_fails(io) ==> r is Ok,
            r matches Err(e) ==> from_io(io, e),
            final(self).wf(),
            final(self).grows(old(self)),
            final(self).answered(io, old(self).wire().len() as int),
            final(self).half_period_us() == old(self).half_period_us(),
            final(buffer)@.len() == old(buffer)@.len(),
            r is Ok ==> exists|probes: Seq<u8>, acks: Seq<u8>| {
                &&& probes.len() == 3
                &&& acks.len() == bytes@.len() + 2
                &&& final(self).history() == old(self).history() + write_read_events(address, bytes@, final(buffer)@, probes, acks)
            },
            r is Ok ==> released(final(self).wire(), Line::Clock) && released(final(self).wire(), Line::Data),
            r is Ok && write_read_was_clean(
                old(self).half_period_us(),
                address,
                bytes@,
                final(buffer)@.len(),
                final(self).replies(),
                old(self).wire().len() as int,
            ) ==> final(self).wire() == old(self).wire() + write_read_ops(
                old(self).half_period_us(),
                address,
                bytes@,
                final(buffer)@.len(),
                final(self).replies(),
                old(self).wire().len() as int,
            ),
    {
        let ghost n0 = self.ops@.len() as int;
        let ghost h = self.half_period;
        let w = self.send_phase(io, address, bytes)?;
        let ghost h2 = self.events@;
        let ghost ops2 = self.ops@;
        let ghost rep2 = self.replies@;
        let g = self.receive_phase(io, address, buffer)?;
        let ghost h5 = self.events@;
        let ghost m5 = self.ops@.len() as int;
        let ghost ops5 = self.ops@;
        let ghost rep5 = self.replies@;
        self.stop(io)?;
        proof {
            lemma_write_read_wire(
                h, address, bytes@, buffer@.len(), old(self).ops@, ops2, rep2, ops5, rep5, self.ops@, self.replies@,
                n0, w@.0, g@.0,
            );
        }
        let ghost p2 = level_bit(self.replies@[m5 + wait_len(self.replies@[m5 + 2] == 0) + 2]);
        proof {
            lemma_assemble_write_read(
                old(self).events@, h2, h5, self.events@, address, bytes@, buffer@, w@.0, w@.1, w@.2, g@.0, g@.1, p2,
            );
        }
        Ok(())
    }
}

/// The history of a combined transfer, put together from its phases.
proof fn lemma_assemble_write_read(
    h0: Seq<BusEvent>,
    h2: Seq<BusEvent>,
    h5: Seq<BusEvent>,
    h6: Seq<BusEvent>,
    address: u8,
    bytes: Seq<u8>,
    vals: Seq<u8>,
    p0: u8,
    a0: u8,
    tail: Seq<u8>,
    p1: u8,
    a1: u8,
    p2: u8,
)
    requires
        tail.len() == bytes.len(),
        h2 == h0 + start_events(p0) + sent_byte(address_byte(address, false), a0) + sent_bytes(bytes, tail),
        h5 == h2 + start_events(p1) + sent_byte(address_byte(address, true), a1) + received_bytes(vals, vals.len()),
        h6 == h5 + stop_events(p2),
    ensures
        exists|probes: Seq<u8>, acks: Seq<u8>| {
            &&& probes.len() == 3
            &&& acks.len() == bytes.len() + 2
            &&& h6 == h0 + write_read_events(address, bytes, vals, probes, acks)
        },
{
    let probes = seq![p0, p1, p2];
    let acks = seq![a0] + tail + seq![a1];
    let n = bytes.len() as int;
    assert(acks.subrange(1, n + 1) =~= tail);
    assert(acks[0] == a0 && acks[n + 1] == a1);
    let e0 = start_events(p0);
    let e1 = sent_byte(address_byte(address, false), a0);
    let e2 = sent_bytes(bytes, tail);
    let e3 = start_events(p1);
    let e4 = sent_byte(address_byte(address, true), a1);
    let e5 = received_bytes(vals, vals.len());
    let e6 = stop_events(p2);
    assert(write_read_events(address, bytes, vals, probes, acks) == e0 + e1 + e2 + e3 + e4 + e5 + e6);
    assert(h6 =~= h0 + (e0 + e1 + e2 + e3 + e4 + e5 + e6));
}

/// The bits of a byte are 0 or 1.
proof fn lemma_bit_kinds(b: u8, k: int)
    requires
        0 <= k <= 8,
    ensures
        forall|i: int| 0 <= i < k ==> #[trigger] bit_at(b, i) <= 1,
{
    assert forall|i: int| 0 <= i < k implies #[trigger] bit_at(b, i) <= 1 by {
        let sh = (7 - i) as u8;
        assert((b >> sh) & 1u8 <= 1u8) by (bit_vector);
    }
}

/// The wire of a write transfer with no recovery, put together from its
/// phases.
proof fn lemma_write_wire(
    h: u64,
    address: u8,
    bytes: Seq<u8>,
    ops0: Seq<Action>,
    ops3: Seq<Action>,
    rep3: Seq<u8>,
    ops: Seq<Action>,
    rep: Seq<u8>,
    n0: int,
    w0: u8,
)
    requires
        n0 == ops0.len(),
        ops3.len() == rep3.len(),
        rep3.len() <= rep.len(),
        forall|i: int| 0 <= i < rep3.len() ==> #[trigger] rep[i] == rep3[i],
        n0 + 2 < rep3.len(),
        w0 == level_bit(rep3[n0 + 2]),
        w0 != 0 ==> ops3 == ops0 + start_ops(h, rep3, n0) + bits_ops(
            h,
            sent_kinds(address_byte(address, false)) + sent_run(bytes),
            rep3,
            n0 + start_ops(h, rep3, n0).len(),
        ),
        level_bit(rep[stop_look(rep, ops3.len() as int)]) != 0 ==> ops == ops3 + stop_ops(h, rep, ops3.len() as int),
    ensures
        write_was_clean(h, address, bytes, rep, n0) ==> ops == ops0 + write_ops(h, address, bytes, rep, n0),
{
    let kinds = sent_kinds(address_byte(address, false)) + sent_run(bytes);
    if rep[n0 + 2] != 0 {
        assert(w0 != 0);
        let sl = start_ops(h, rep3, n0).len();
        assert(rep3[n0 + 5] == rep[n0 + 5]);
        assert(start_ops(h, rep3, n0) == start_ops(h, rep, n0));
        lemma_bits_ops_frame(h, kinds, rep3, rep, n0 + sl);
        let bl = bits_ops(h, kinds, rep, n0 + sl).len();
        assert(ops3.len() == n0 + sl + bl);
        if write_was_clean(h, address, bytes, rep, n0) {
            assert(ops =~= ops0 + write_ops(h, address, bytes, rep, n0));
        }
    }
}

/// The wire of a read transfer with no recovery, put together from its
/// phases.
proof fn lemma_read_wire(
    h: u64,
    address: u8,
    len: nat,
    ops0: Seq<Action>,
    ops3: Seq<Action>,
    rep3: Seq<u8>,
    ops: Seq<Action>,
    rep: Seq<u8>,
    n0: int,
    w0: u8,
)
    requires
        n0 == ops0.len(),
        ops3.len() == rep3.len(),
        rep3.len() <= rep.len(),
        forall|i: int| 0 <= i < rep3.len() ==> #[trigger] rep[i] == rep3[i],
        n0 + 2 < rep3.len(),
        w0 == level_bit(rep3[n0 + 2]),
        w0 != 0 ==> ops3 == ops0 + start_ops(h, rep3, n0) + bits_ops(
            h,
            sent_kinds(address_byte(address, true)) + received_run(len, len),
            rep3,
            n0 + start_ops(h, rep3, n0).len(),
        ),
        level_bit(rep[stop_look(rep, ops3.len() as int)]) != 0 ==> ops == ops3 + stop_ops(h, rep, ops3.len() as int),
    ensures
        read_was_clean(h, address, len, rep, n0) ==> ops == ops0 + read_ops(h, address, len, rep, n0),
{
    let kinds = sent_kinds(address_byte(address, true)) + received_run(len, len);
    if rep[n0 + 2] != 0 {
        assert(w0 != 0);
        let sl = start_ops(h, rep3, n0).len();
        assert(rep3[n0 + 5] == rep[n0 + 5]);
        assert(start_ops(h, rep3, n0) == start_ops(h, rep, n0));
        lemma_bits_ops_frame(h, kinds, rep3, rep, n0 + sl);
        let bl = bits_ops(h, kinds, rep, n0 + sl).len();
        assert(ops3.len() == n0 + sl + bl);
        if read_was_clean(h, address, len, rep, n0) {
            assert(ops =~= ops0 + read_ops(h, address, len, rep, n0));
        }
    }
}

/// The wire of a combined transfer with no recovery, put together from
/// its phases.
#[verifier::rlimit(100)]
#[verifier::spinoff_prover]
proof fn lemma_write_read_wire(
    h: u64,
    address: u8,
    bytes: Seq<u8>,
    len: nat,
    ops0: Seq<Action>,
    ops2: Seq<Action>,
    rep2: Seq<u8>,
    ops5: Seq<Action>,
    rep5: Seq<u8>,
    ops: Seq<Action>,
    rep: Seq<u8>,
    n0: int,
    w0: u8,
    g0: u8,
)
    requires
        n0 == ops0.len(),
        ops2.len() == rep2.len(),
        ops5.len() == rep5.len(),
        rep2.len() <= rep5.len(),
        rep5.len() <= rep.len(),
        forall|i: int| 0 <= i < rep2.len() ==> #[trigger] rep5[i] == rep2[i],
        forall|i: int| 0 <= i < rep5.len() ==> #[trigger] rep[i] == rep5[i],
        n0 + 2 < rep2.len(),
        ops2.len() + 2 < rep5.len(),
        w0 == level_bit(rep2[n0 + 2]),
        g0 == level_bit(rep5[ops2.len() as int + 2]),
        w0 != 0 ==> ops2 == ops0 + start_ops(h, rep2, n0) + bits_ops(
            h,
            sent_kinds(address_byte(address, false)) + sent_run(bytes),
            rep2,
            n0 + start_ops(h, rep2, n0).len(),
        ),
        g0 != 0 ==> ops5 == ops2 + start_ops(h, rep5, ops2.len() as int) + bits_ops(
            h,
            sent_kinds(address_byte(address, true)) + received_run(len, len),
            rep5,
            ops2.len() as int + start_ops(h, rep5, ops2.len() as int).len(),
        ),
        level_bit(rep[stop_look(rep, ops5.len() as int)]) != 0 ==> ops == ops5 + stop_ops(h, rep, ops5.len() as int),
    ensures
        write_read_was_clean(h, address, bytes, len, rep, n0) ==> ops == ops0 + write_read_ops(h, address, bytes, len, rep, n0),
{
    let k1 = sent_kinds(address_byte(address, false)) + sent_run(bytes);
    let k2 = sent_kinds(address_byte(address, true)) + received_run(len, len);
    if rep[n0 + 2] != 0 {
        assert(w0 != 0);
        let sl = start_ops(h, rep2, n0).len();
        assert(rep2[n0 + 5] == rep[n0 + 5]);
        assert(start_ops(h, rep2, n0) == start_ops(h, rep, n0));
        lemma_bits_ops_frame(h, k1, rep2, rep5, n0 + sl);
        lemma_bits_ops_frame(h, k1, rep5, rep, n0 + sl);
        let q = ops2.len() as int;
        assert(q == n0 + sl + bits_ops(h, k1, rep, n0 + sl).len());
        if rep[q + 2] != 0 {
            assert(g0 != 0);
            let sl2 = start_ops(h, rep5, q).len();
            assert(rep5[q + 5] == rep[q + 5]);
            assert(start_ops(h, rep5, q) == start_ops(h, rep, q));
            lemma_bits_ops_frame(h, k2, rep5, rep, q + sl2);
            assert(ops5.len() == q + sl2 + bits_ops(h, k2, rep, q + sl2).len());
            if write_read_was_clean(h, address, bytes, len, rep, n0) {
                let s1 = start_ops(h, rep, n0);
                let b1 = bits_ops(h, k1, rep, n0 + sl);
                let s2 = start_ops(h, rep, q);
                let b2 = bits_ops(h, k2, rep, q + sl2);
                let st = stop_ops(h, rep, q + sl2 + b2.len());
                assert(ops == ops0 + s1 + b1 + s2 + b2 + st);
                assert(write_read_ops(h, address, bytes, len, rep, n0) == s1 + b1 + s2 + b2 + st);
                assert(ops =~= ops0 + write_read_ops(h, address, bytes, len, rep, n0));
            }
        }
    }
}

/// Shifting a bit in at the bottom moves every other bit up by one place.
proof fn lemma_shift_in(x: u8, b: u8, j: u8)
    requires
        b <= 1,
        j < 7,
    ensures
        (((x << 1u8) | b) >> (j + 1u8)) & 1u8 == (x >> j) & 1u8,
        ((x << 1u8) | b) >> 0u8 & 1u8 == b,
{
    assert((((x << 1u8) | b) >> (j + 1u8)) & 1u8 == (x >> j) & 1u8) by (bit_vector)
        requires
            b <= 1,
            j < 7,
    ;
    assert(((x << 1u8) | b) >> 0u8 & 1u8 == b) by (bit_vector)
        requires
            b <= 1,
    ;
}

} // verus!
