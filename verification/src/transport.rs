//! The driver value and its register transport: single and burst register
//! access, each inside one chip-select bracket.

use vstd::prelude::*;
use crate::bus::{
    Bus, BusEvent, RegOp, address_byte, align_merge, answer, fault_free, flat, is_clean,
    is_transaction, lemma_run_append, read_outs, stops_at_fault, stored_by_read, write_outs,
};
use crate::consts::PCDErrorCode;

verus! {

/// A reader chip behind a bus.
///
/// Beside the bus the driver keeps two ghost records of what it did: `wire`,
/// every use of the bus in order, and `journal`, one entry per register
/// transaction. Only the functions of this file extend them.
pub struct MFRC522<B: Bus> {
    bus: B,
    wire: Ghost<Seq<BusEvent>>,
    journal: Ghost<Seq<RegOp>>,
}

impl<B: Bus> MFRC522<B> {
    /// Every use of the bus so far, oldest first.
    pub closed spec fn wire(&self) -> Seq<BusEvent> {
        self.wire@
    }

    /// Every register transaction so far, oldest first.
    pub closed spec fn journal(&self) -> Seq<RegOp> {
        self.journal@
    }

    /// The bus events that `self` has beyond those of `before`.
    pub open spec fn wire_since(&self, before: &Self) -> Seq<BusEvent> {
        self.wire().skip(before.wire().len() as int)
    }

    /// The journal entries that `self` has beyond those of `before`.
    pub open spec fn journal_since(&self, before: &Self) -> Seq<RegOp> {
        self.journal().skip(before.journal().len() as int)
    }

    /// Whether chip-select is released as far as this driver drove it: the
    /// last use of the bus, if there was any, was not inside a transaction.
    pub open spec fn released(&self) -> bool {
        self.wire().len() > 0 ==> !(self.wire().last() is Select)
            && !(self.wire().last() is Exchange)
    }

    /// The two records agree: the wire holds the bus events of the journal's
    /// entries, one after the other and nothing else, and every entry says
    /// what its events show.
    pub open spec fn consistent(&self) -> bool {
        &&& self.wire() == flat(self.journal())
        &&& forall|i: int| 0 <= i < self.journal().len() ==> (#[trigger] self.journal()[i]).valid()
    }

    /// `self` is a later state of `before`: it has the records of `before`
    /// and possibly more; if chip-select was released then, it is released
    /// now; and if the records agreed then, they agree now.
    pub open spec fn extends(&self, before: &Self) -> bool {
        &&& before.wire().len() <= self.wire().len()
        &&& forall|i: int|
            0 <= i < before.wire().len() ==> #[trigger] self.wire()[i] == before.wire()[i]
        &&& before.journal().len() <= self.journal().len()
        &&& forall|i: int|
            0 <= i < before.journal().len() ==> #[trigger] self.journal()[i]
                == before.journal()[i]
        &&& (before.released() ==> self.released())
        &&& (before.consistent() ==> self.consistent())
    }

    /// A journal that grows by one entry grows on the wire by the bus events
    /// of that entry.
    proof fn lemma_push_consistent(before: &Self, after: &Self, op: RegOp)
        requires
            after.journal() == before.journal().push(op),
            after.wire() == before.wire() + op.events(),
            op.valid(),
        ensures
            before.consistent() ==> after.consistent(),
    {
        assert(after.journal().drop_last() =~= before.journal());
        if before.consistent() {
            assert forall|i: int| 0 <= i < after.journal().len() implies (
            #[trigger] after.journal()[i]).valid() by {
                if i < before.journal().len() {
                    assert(after.journal()[i] == before.journal()[i]);
                }
            }
        }
    }

    /// Records that only grow can be cut at any earlier state: what came
    /// since `a` is what came between `a` and `b`, then what came since `b`.
    pub proof fn lemma_since_concat(a: &Self, b: &Self, c: &Self)
        requires
            b.extends(a),
            c.extends(b),
        ensures
            c.extends(a),
            c.journal_since(a) == b.journal_since(a) + c.journal_since(b),
            c.wire_since(a) == b.wire_since(a) + c.wire_since(b),
    {
        assert(c.journal_since(a) =~= b.journal_since(a) + c.journal_since(b));
        assert(c.wire_since(a) =~= b.wire_since(a) + c.wire_since(b));
    }

    /// A driver whose journal was fault-free up to `b` and then ran on to `c`,
    /// stopping at the first fault: its journal since `a` stops at the first
    /// fault, and is fault-free exactly when the part since `b` is.
    pub proof fn lemma_run_on(a: &Self, b: &Self, c: &Self)
        requires
            b.extends(a),
            c.extends(b),
            fault_free(b.journal_since(a)),
            stops_at_fault(c.journal_since(b)),
        ensures
            c.extends(a),
            c.journal_since(a) == b.journal_since(a) + c.journal_since(b),
            stops_at_fault(c.journal_since(a)),
            fault_free(c.journal_since(a)) <==> fault_free(c.journal_since(b)),
    {
        Self::lemma_since_concat(a, b, c);
        lemma_run_append(b.journal_since(a), c.journal_since(b));
    }

    /// The bus that the driver holds.
    pub closed spec fn spec_bus(&self) -> B {
        self.bus
    }

    /// A driver on `bus` that has not used it yet.
    pub fn new(bus: B) -> (dev: Self)
        ensures
            dev.spec_bus() == bus,
            dev.wire() == Seq::<BusEvent>::empty(),
            dev.journal() == Seq::<RegOp>::empty(),
            dev.released(),
            dev.consistent(),
    {
        MFRC522 { bus, wire: Ghost(Seq::empty()), journal: Ghost(Seq::empty()) }
    }

    /// The bus, for inspection.
    pub fn bus(&self) -> (r: &B)
        ensures
            *r == self.spec_bus(),
    {
        &self.bus
    }

    /// Gives the bus back.
    pub fn into_bus(self) -> (r: B)
        ensures
            r == self.spec_bus(),
    {
        self.bus
    }

    /// Drives chip-select low and takes note of it.
    fn cs_low(&mut self) -> (ok: bool)
        ensures
            final(self).wire() == old(self).wire().push(BusEvent::Select { ok }),
            final(self).journal() == old(self).journal(),
    {
        let ok = self.bus.select().is_ok();
        proof {
            self.wire@ = self.wire@.push(BusEvent::Select { ok });
        }
        ok
    }

    /// Drives chip-select high and takes note of it.
    fn cs_high(&mut self) -> (ok: bool)
        ensures
            final(self).wire() == old(self).wire().push(BusEvent::Release { ok }),
            final(self).journal() == old(self).journal(),
    {
        let ok = self.bus.release().is_ok();
        proof {
            self.wire@ = self.wire@.push(BusEvent::Release { ok });
        }
        ok
    }

    /// Exchanges one byte and takes note of it.
    fn spi_transfer(&mut self, out: u8) -> (back: Option<u8>)
        ensures
            final(self).wire() == old(self).wire().push(BusEvent::Exchange { out, back }),
            final(self).journal() == old(self).journal(),
    {
        let back = match self.bus.exchange(out) {
            Ok(v) => Some(v),
            Err(_) => None,
        };
        proof {
            self.wire@ = self.wire@.push(BusEvent::Exchange { out, back });
        }
        back
    }

    /// Waits `time_ms` milliseconds.
    pub fn sleep(&mut self, time_ms: u64)
        ensures
            final(self).extends(old(self)),
            final(self).wire() == old(self).wire().push(BusEvent::Delay { ms: time_ms }),
            final(self).journal() == old(self).journal().push(RegOp::Pause { ms: time_ms }),
    {
        self.bus.delay_ms(time_ms);
        proof {
            self.wire@ = self.wire@.push(BusEvent::Delay { ms: time_ms });
            self.journal@ = self.journal@.push(RegOp::Pause { ms: time_ms });
            let op = RegOp::Pause { ms: time_ms };
            assert(self.wire() =~= old(self).wire() + op.events());
            Self::lemma_push_consistent(old(self), self, op);
        }
    }

    /// Writes `val` to register `reg`.
    ///
    /// On the wire this is one transaction that clocks the address byte and
    /// then the value; chip-select is driven high again whether or not a step
    /// failed. The call succeeds exactly when every step did.
    pub fn write_reg(&mut self, reg: u8, val: u8) -> (r: Result<(), PCDErrorCode>)
        ensures
            final(self).extends(old(self)),
            is_transaction(final(self).wire_since(old(self)), write_outs(reg, seq![val])),
            r is Ok <==> is_clean(final(self).wire_since(old(self)), write_outs(reg, seq![val])),
            r is Err ==> r == Err::<(), PCDErrorCode>(PCDErrorCode::Transport),
            final(self).journal() == old(self).journal().push(
                RegOp::Write {
                    reg,
                    data: seq![val],
                    ok: r is Ok,
                    events: final(self).wire_since(old(self)),
                },
            ),
    {
        let ghost outs = write_outs(reg, seq![val]);
        let mut ok = self.cs_low();
        if ok {
            ok = self.spi_transfer(reg << 1).is_some();
            if ok {
                ok = self.spi_transfer(val).is_some();
            }
        }
        let up = self.cs_high();
        let r = if ok && up { Ok(()) } else { Err(PCDErrorCode::Transport) };
        proof {
            let ev = self.wire_since(old(self));
            let op = RegOp::Write { reg, data: seq![val], ok: r is Ok, events: ev };
            self.journal@ = self.journal@.push(op);
            assert(is_transaction(ev, outs));
            assert(self.wire() =~= old(self).wire() + ev);
            Self::lemma_push_consistent(old(self), self, op);
        }
        r
    }

    /// Writes the first `count` bytes of `values` to register `reg` in one
    /// transaction: the address byte once, then the bytes in order.
    pub fn write_reg_buff(&mut self, reg: u8, count: usize, values: &[u8]) -> (r: Result<
        (),
        PCDErrorCode,
    >)
        requires
            count <= values@.len(),
        ensures
            final(self).extends(old(self)),
            is_transaction(
                final(self).wire_since(old(self)),
                write_outs(reg, values@.take(count as int)),
            ),
            r is Ok <==> is_clean(
                final(self).wire_since(old(self)),
                write_outs(reg, values@.take(count as int)),
            ),
            r is Err ==> r == Err::<(), PCDErrorCode>(PCDErrorCode::Transport),
            final(self).journal() == old(self).journal().push(
                RegOp::Write {
                    reg,
                    data: values@.take(count as int),
                    ok: r is Ok,
                    events: final(self).wire_since(old(self)),
                },
            ),
    {
        let ghost outs = write_outs(reg, values@.take(count as int));
        let ghost base = old(self).wire().len() as int;
        let mut ok = self.cs_low();
        let mut i: usize = 0;
        if ok {
            ok = self.spi_transfer(reg << 1).is_some();
            while ok && i < count
                invariant
                    i <= count,
                    count <= values@.len(),
                    outs == write_outs(reg, values@.take(count as int)),
                    base == old(self).wire().len(),
                    self.journal() == old(self).journal(),
                    self.wire().len() == base + 2 + i,
                    forall|j: int| 0 <= j < base ==>
                        #[trigger] self.wire()[j] == old(self).wire()[j],
                    self.wire()[base] == (BusEvent::Select { ok: true }),
                    forall|j: int|
                        1 <= j <= i + 1 ==> (#[trigger] self.wire()[base + j]) is Exchange
                            && self.wire()[base + j]->out == outs[j - 1],
                    forall|j: int| 1 <= j < i + 1 ==>
                        (#[trigger] self.wire()[base + j])->back is Some,
                    ok == (self.wire()[base + i + 1]->back is Some),
                decreases count - i,
            {
                ok = self.spi_transfer(values[i]).is_some();
                i += 1;
            }
        }
        let up = self.cs_high();
        let r = if ok && up { Ok(()) } else { Err(PCDErrorCode::Transport) };
        proof {
            let ev = self.wire_since(old(self));
            let op = RegOp::Write {
                reg,
                data: values@.take(count as int),
                ok: r is Ok,
                events: ev,
            };
            self.journal@ = self.journal@.push(op);
            assert(forall|j: int| 0 <= j < ev.len() ==> ev[j] == self.wire()[base + j]);
            assert(is_transaction(ev, outs));
            assert(self.wire() =~= old(self).wire() + ev);
            Self::lemma_push_consistent(old(self), self, op);
        }
        r
    }

    /// Reads register `reg`.
    ///
    /// The address byte goes out first and one zero byte after it; the value
    /// returned is the byte that came in during that second exchange, since
    /// the link answers each byte one exchange late.
    pub fn read_reg(&mut self, reg: u8) -> (r: Result<u8, PCDErrorCode>)
        ensures
            final(self).extends(old(self)),
            is_transaction(final(self).wire_since(old(self)), read_outs(reg, 1)),
            r is Ok <==> is_clean(final(self).wire_since(old(self)), read_outs(reg, 1)),
            r is Ok ==> r->Ok_0 == answer(final(self).wire_since(old(self)), 1),
            r is Err ==> r == Err::<u8, PCDErrorCode>(PCDErrorCode::Transport),
            final(self).journal() == old(self).journal().push(
                match r {
                    Ok(v) => RegOp::Read {
                        reg,
                        count: 1,
                        data: seq![v],
                        ok: true,
                        events: final(self).wire_since(old(self)),
                    },
                    Err(_) => RegOp::Read {
                        reg,
                        count: 1,
                        data: Seq::empty(),
                        ok: false,
                        events: final(self).wire_since(old(self)),
                    },
                },
            ),
    {
        let ghost outs = read_outs(reg, 1);
        let mut ok = self.cs_low();
        let mut val: u8 = 0;
        if ok {
            ok = self.spi_transfer((reg << 1) | 0x80).is_some();
            if ok {
                match self.spi_transfer(0) {
                    Some(v) => {
                        val = v;
                    },
                    None => {
                        ok = false;
                    },
                }
            }
        }
        let up = self.cs_high();
        let r = if ok && up { Ok(val) } else { Err(PCDErrorCode::Transport) };
        proof {
            let ev = self.wire_since(old(self));
            let op = match r {
                Ok(v) => RegOp::Read { reg, count: 1, data: seq![v], ok: true, events: ev },
                Err(_) => RegOp::Read { reg, count: 1, data: Seq::empty(), ok: false, events: ev },
            };
            self.journal@ = self.journal@.push(op);
            assert(is_transaction(ev, outs));
            assert(self.wire() =~= old(self).wire() + ev);
            if r is Ok {
                assert(op->Read_data =~= Seq::new(1, |j: int| answer(ev, 1 + j)));
            }
            Self::lemma_push_consistent(old(self), self, op);
        }
        r
    }

    /// Reads register `reg` `count` times in one transaction and stores the
    /// bytes in `output_buff[..count]`.
    ///
    /// The address byte is repeated for every further byte wanted and a zero
    /// byte ends the burst. With `rx_align` above zero the first byte is laid
    /// over `output_buff[0]`: bit positions below `rx_align` keep what the
    /// buffer held. Nothing at all happens for a `count` of zero.
    pub fn read_reg_buff(
        &mut self,
        reg: u8,
        count: usize,
        output_buff: &mut [u8],
        rx_align: u8,
    ) -> (r: Result<(), PCDErrorCode>)
        requires
            count <= old(output_buff)@.len(),
            rx_align <= 7,
        ensures
            final(self).extends(old(self)),
            count == 0 ==> r is Ok && final(self).wire() == old(self).wire()
                && final(self).journal() == old(self).journal()
                    && final(output_buff)@ == old(output_buff)@,
            count > 0 ==> is_transaction(
                final(self).wire_since(old(self)),
                read_outs(reg, count as nat),
            ),
            count > 0 ==> (r is Ok <==> is_clean(
                final(self).wire_since(old(self)),
                read_outs(reg, count as nat),
            )),
            count > 0 ==> stored_by_read(
                old(output_buff)@,
                final(self).wire_since(old(self)),
                count as nat,
                rx_align,
                final(output_buff)@,
            ),
            final(output_buff)@.len() == old(output_buff)@.len(),
            r is Err ==> r == Err::<(), PCDErrorCode>(PCDErrorCode::Transport),
            count > 0 && r is Ok ==> final(self).journal().last()->Read_data.len() == count
                && final(output_buff)@[0] == align_merge(
                old(output_buff)@[0],
                final(self).journal().last()->Read_data[0],
                rx_align,
            ) && forall|j: int|
                1 <= j < count ==>
                    final(output_buff)@[j] == final(self).journal().last()->Read_data[j],
            forall|j: int|
                count <= j < old(output_buff)@.len() ==>
                    final(output_buff)@[j] == old(output_buff)@[j],
            count > 0 ==> final(self).journal() == old(self).journal().push(
                if r is Ok {
                    RegOp::Read {
                        reg,
                        count: count as nat,
                        data: Seq::new(
                            count as nat,
                            |j: int| answer(final(self).wire_since(old(self)), 1 + j),
                        ),
                        ok: true,
                        events: final(self).wire_since(old(self)),
                    }
                } else {
                    RegOp::Read {
                        reg,
                        count: count as nat,
                        data: Seq::empty(),
                        ok: false,
                        events: final(self).wire_since(old(self)),
                    }
                },
            ),
    {
        if count == 0 {
            return Ok(());
        }
        let ghost outs = read_outs(reg, count as nat);
        let ghost base = old(self).wire().len() as int;
        let addr: u8 = (reg << 1) | 0x80;
        let mut ok = self.cs_low();
        let mut i: usize = 0;
        if ok {
            ok = self.spi_transfer(addr).is_some();
            while ok && i < count
                invariant
                    i <= count,
                    0 < count <= output_buff@.len(),
                    rx_align <= 7,
                    addr == address_byte(reg, true),
                    outs == read_outs(reg, count as nat),
                    base == old(self).wire().len(),
                    output_buff@.len() == old(output_buff)@.len(),
                    self.journal() == old(self).journal(),
                    self.wire().len() == base + 2 + i,
                    forall|j: int| 0 <= j < base ==>
                        #[trigger] self.wire()[j] == old(self).wire()[j],
                    self.wire()[base] == (BusEvent::Select { ok: true }),
                    forall|j: int|
                        1 <= j <= i + 1 ==> (#[trigger] self.wire()[base + j]) is Exchange
                            && self.wire()[base + j]->out == outs[j - 1],
                    forall|j: int| 1 <= j < i + 1 ==>
                        (#[trigger] self.wire()[base + j])->back is Some,
                    ok == (self.wire()[base + i + 1]->back is Some),
                    forall|j: int|
                        0 <= j < output_buff@.len() ==> #[trigger] output_buff@[j] == (if j < i
                            && self.wire()[base + 2 + j]->back is Some {
                            if j == 0 {
                                align_merge(
                                    old(output_buff)@[0],
                                    self.wire()[base + 2]->back->0,
                                    rx_align,
                                )
                            } else {
                                self.wire()[base + 2 + j]->back->0
                            }
                        } else {
                            old(output_buff)@[j]
                        }),
                decreases count - i,
            {
                let next: u8 = if i + 1 < count { addr } else { 0 };
                match self.spi_transfer(next) {
                    Some(v) => {
                        if i == 0 && rx_align > 0 {
                            let mask: u8 = 0xFFu8 << rx_align;
                            output_buff[0] = (output_buff[0] & !mask) | (v & mask);
                        } else {
                            output_buff[i] = v;
                        }
                    },
                    None => {
                        ok = false;
                    },
                }
                i += 1;
            }
        }
        let up = self.cs_high();
        let r = if ok && up { Ok(()) } else { Err(PCDErrorCode::Transport) };
        proof {
            let ev = self.wire_since(old(self));
            let op = if r is Ok {
                RegOp::Read {
                    reg,
                    count: count as nat,
                    data: Seq::new(count as nat, |j: int| answer(ev, 1 + j)),
                    ok: true,
                    events: ev,
                }
            } else {
                RegOp::Read { reg, count: count as nat, data: Seq::empty(), ok: false, events: ev }
            };
            self.journal@ = self.journal@.push(op);
            assert(forall|j: int| 0 <= j < ev.len() ==> ev[j] == self.wire()[base + j]);
            assert(is_transaction(ev, outs));
            assert(self.wire() =~= old(self).wire() + ev);
            Self::lemma_push_consistent(old(self), self, op);
            assert forall|j: int| 0 <= j < output_buff@.len() implies #[trigger] output_buff@[j]
                == (if j < count && 2 + j < ev.len() - 1 && ev[2 + j] is Exchange && ev[2
                + j]->back is Some {
                if j == 0 {
                    align_merge(old(output_buff)@[0], ev[2]->back->0, rx_align)
                } else {
                    ev[2 + j]->back->0
                }
            } else {
                old(output_buff)@[j]
            }) by {
                if j < count && 2 + j < ev.len() - 1 {
                    assert(ev[2 + j] == self.wire()[base + 2 + j]);
                    assert(ev[2] == self.wire()[base + 2]);
                }
            }
        }
        r
    }
}

} // verus!
