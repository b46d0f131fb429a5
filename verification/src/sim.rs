//! A simulated register file behind the byte link: sixty-four registers that
//! keep what is written to them, reached by address bytes as the chip's
//! registers are, and answering one exchange late as the link does.

use vstd::prelude::*;
use crate::bus::{
    Bus, BusEvent, BusFault, RegOp, address_byte, answer, asks_read, asks_write, is_clean,
    read_outs, value, write_outs,
};

verus! {

/// The state of the simulated register file.
pub struct RegisterFileView {
    /// The sixty-four registers.
    pub regs: Seq<u8>,
    /// The address byte of the running transaction, once it has come.
    pub addr: Option<u8>,
    /// The byte that the next exchange returns.
    pub latch: u8,
}

/// The register that an address byte names.
pub open spec fn spec_register_of(addr: u8) -> u8 {
    (addr >> 1) & 0x3F
}

/// Whether an address byte asks for a read.
pub open spec fn spec_is_read(addr: u8) -> bool {
    addr & 0x80 != 0
}

/// The register file after chip-select went low or high: no transaction is
/// under way and nothing waits to be returned.
pub open spec fn after_edge(s: RegisterFileView) -> RegisterFileView {
    RegisterFileView { regs: s.regs, addr: None, latch: 0 }
}

/// The register file after the byte `out` came in. The first byte of a
/// transaction is its address byte. In a write, each further byte is stored
/// in the register. In a read, each further byte with the read bit names the
/// register to read next. The value of a register that was named is what the
/// next exchange returns.
pub open spec fn after_exchange(s: RegisterFileView, out: u8) -> RegisterFileView {
    match s.addr {
        None => RegisterFileView {
            regs: s.regs,
            addr: Some(out),
            latch: if spec_is_read(out) {
                s.regs[spec_register_of(out) as int]
            } else {
                0
            },
        },
        Some(a) => if spec_is_read(a) {
            if spec_is_read(out) {
                RegisterFileView {
                    regs: s.regs,
                    addr: Some(out),
                    latch: s.regs[spec_register_of(out) as int],
                }
            } else {
                RegisterFileView { regs: s.regs, addr: s.addr, latch: 0 }
            }
        } else {
            RegisterFileView {
                regs: s.regs.update(spec_register_of(a) as int, out),
                addr: s.addr,
                latch: 0,
            }
        },
    }
}

/// The register file after one use of the bus, if the use went as the
/// register file has it: nothing fails, and an exchange returns the byte
/// that waited.
pub open spec fn after_event(s: RegisterFileView, ev: BusEvent) -> Option<RegisterFileView> {
    match ev {
        BusEvent::Select { ok } => if ok {
            Some(after_edge(s))
        } else {
            None
        },
        BusEvent::Release { ok } => if ok {
            Some(after_edge(s))
        } else {
            None
        },
        BusEvent::Exchange { out, back } => if back == Some(s.latch) {
            Some(after_exchange(s, out))
        } else {
            None
        },
        BusEvent::Delay { ms } => Some(s),
    }
}

/// The register file after a run of bus events, if every one of them went as
/// the register file has it.
pub open spec fn after_events(
    s: RegisterFileView,
    events: Seq<BusEvent>,
) -> Option<RegisterFileView>
    decreases events.len(),
{
    if events.len() == 0 {
        Some(s)
    } else {
        match after_events(s, events.drop_last()) {
            Some(t) => after_event(t, events.last()),
            None => None,
        }
    }
}

/// A register file for use in place of the chip.
pub struct RegisterFile {
    regs: [u8; 64],
    addr: Option<u8>,
    latch: u8,
}

impl View for RegisterFile {
    type V = RegisterFileView;

    closed spec fn view(&self) -> RegisterFileView {
        RegisterFileView { regs: self.regs@, addr: self.addr, latch: self.latch }
    }
}

impl RegisterFile {
    /// A register file with every register at zero.
    pub fn new() -> (r: Self)
        ensures
            r@.regs.len() == 64,
            forall|i: int| 0 <= i < 64 ==> r@.regs[i] == 0,
            r@.addr is None,
            r@.latch == 0,
    {
        RegisterFile { regs: [0u8; 64], addr: None, latch: 0 }
    }

    /// The value of register `reg`.
    pub fn register(&self, reg: u8) -> (v: u8)
        requires
            reg < 64,
        ensures
            v == self@.regs[reg as int],
    {
        self.regs[reg as usize]
    }
}

impl Bus for RegisterFile {
    fn select(&mut self) -> (r: Result<(), BusFault>)
        ensures
            r is Ok,
            final(self)@ == after_edge(old(self)@),
    {
        self.addr = None;
        self.latch = 0;
        Ok(())
    }

    fn release(&mut self) -> (r: Result<(), BusFault>)
        ensures
            r is Ok,
            final(self)@ == after_edge(old(self)@),
    {
        self.addr = None;
        self.latch = 0;
        Ok(())
    }

    fn exchange(&mut self, out: u8) -> (r: Result<u8, BusFault>)
        ensures
            r == Ok::<u8, BusFault>(old(self)@.latch),
            final(self)@ == after_exchange(old(self)@, out),
    {
        let back = self.latch;
        self.latch = 0;
        match self.addr {
            None => {
                self.addr = Some(out);
                if out & 0x80 != 0 {
                    let reg: u8 = (out >> 1) & 0x3F;
                    assert(reg < 64) by (bit_vector)
                        requires
                            reg == (out >> 1) & 0x3F,
                    ;
                    self.latch = self.regs[reg as usize];
                }
            },
            Some(a) => {
                if a & 0x80 != 0 {
                    if out & 0x80 != 0 {
                        let reg: u8 = (out >> 1) & 0x3F;
                        assert(reg < 64) by (bit_vector)
                            requires
                                reg == (out >> 1) & 0x3F,
                        ;
                        self.addr = Some(out);
                        self.latch = self.regs[reg as usize];
                    }
                } else {
                    let reg: u8 = (a >> 1) & 0x3F;
                    assert(reg < 64) by (bit_vector)
                        requires
                            reg == (a >> 1) & 0x3F,
                    ;
                    self.regs[reg as usize] = out;
                }
            },
        }
        assert(self@.regs =~= after_exchange(old(self)@, out).regs);
        Ok(back)
    }

    fn delay_ms(&mut self, ms: u64)
        ensures
            final(self)@ == old(self)@,
    {
    }
}

/// An address byte names the register it was made for, and asks for a read
/// exactly when it was made for one.
pub proof fn lemma_address_byte(reg: u8)
    requires
        reg < 64,
    ensures
        spec_register_of(address_byte(reg, true)) == reg,
        spec_register_of(address_byte(reg, false)) == reg,
        spec_is_read(address_byte(reg, true)),
        !spec_is_read(address_byte(reg, false)),
{
    assert((((reg << 1) | 0x80) >> 1) & 0x3F == reg) by (bit_vector)
        requires
            reg < 64,
    ;
    assert(((reg << 1) >> 1) & 0x3F == reg) by (bit_vector)
        requires
            reg < 64,
    ;
    assert(((reg << 1) | 0x80) & 0x80 != 0) by (bit_vector);
    assert((reg << 1) & 0x80 == 0) by (bit_vector)
        requires
            reg < 64,
    ;
}

/// The register file after a single-byte write transaction holds the value
/// in the register, and nothing else has changed.
pub proof fn lemma_write_stores(s: RegisterFileView, reg: u8, val: u8, w: Seq<BusEvent>)
    requires
        s.regs.len() == 64,
        reg < 64,
        is_clean(w, write_outs(reg, seq![val])),
        after_events(s, w) is Some,
    ensures
        after_events(s, w)->Some_0.regs == s.regs.update(reg as int, val),
        after_events(s, w)->Some_0.addr is None,
{
    lemma_address_byte(reg);
    let outs = write_outs(reg, seq![val]);
    assert(outs.len() == 2);
    assert(outs[0] == address_byte(reg, false));
    assert(outs[1] == val);
    let w3 = w.drop_last();
    let w2 = w3.drop_last();
    let w1 = w2.drop_last();
    let w0 = w1.drop_last();
    assert(w0.len() == 0);
    assert(w1.last() == w[0]);
    assert(w2.last() == w[1]);
    assert(w3.last() == w[2]);
    assert(w.last() == w[3]);
    reveal_with_fuel(after_events, 5);
    assert(after_events(s, w0) == Some(s));
    let s1 = after_events(s, w1)->Some_0;
    assert(s1 == after_edge(s));
    let s2 = after_events(s, w2)->Some_0;
    assert(s2 == after_exchange(s1, outs[0]));
    let s3 = after_events(s, w3)->Some_0;
    assert(s3 == after_exchange(s2, outs[1]));
    assert(s3.regs =~= s.regs.update(reg as int, val));
}

/// A single-byte read transaction on the register file returns the value of
/// the register, and the registers stay as they were.
pub proof fn lemma_read_returns(s: RegisterFileView, reg: u8, r: Seq<BusEvent>)
    requires
        s.regs.len() == 64,
        reg < 64,
        is_clean(r, read_outs(reg, 1)),
        after_events(s, r) is Some,
    ensures
        answer(r, 1) == s.regs[reg as int],
        after_events(s, r)->Some_0.regs == s.regs,
{
    lemma_address_byte(reg);
    let outs = read_outs(reg, 1);
    assert(outs.len() == 2);
    assert(outs[0] == address_byte(reg, true));
    assert(outs[1] == 0);
    let r3 = r.drop_last();
    let r2 = r3.drop_last();
    let r1 = r2.drop_last();
    let r0 = r1.drop_last();
    assert(r0.len() == 0);
    assert(r1.last() == r[0]);
    assert(r2.last() == r[1]);
    assert(r3.last() == r[2]);
    assert(r.last() == r[3]);
    reveal_with_fuel(after_events, 5);
    assert(after_events(s, r0) == Some(s));
    let s1 = after_events(s, r1)->Some_0;
    assert(s1 == after_edge(s));
    let s2 = after_events(s, r2)->Some_0;
    assert(s2 == after_exchange(s1, outs[0]));
    assert(s2.latch == s.regs[reg as int]);
    let s3 = after_events(s, r3)->Some_0;
    assert(r[2]->back == Some(s2.latch));
    assert(0u8 & 0x80 == 0) by (bit_vector);
    assert(s3 == after_exchange(s2, 0));
}

/// Events that went as the register file has it did so part by part.
pub proof fn lemma_after_events_split(s: RegisterFileView, a: Seq<BusEvent>, b: Seq<BusEvent>)
    ensures
        after_events(s, a + b) == (match after_events(s, a) {
            Some(t) => after_events(t, b),
            None => None,
        }),
    decreases b.len(),
{
    if b.len() == 0 {
        assert(a + b =~= a);
    } else {
        assert((a + b).drop_last() =~= a + b.drop_last());
        assert((a + b).last() == b.last());
        lemma_after_events_split(s, a, b.drop_last());
    }
}

/// Round trip in terms of the journal: a write of `val` to `reg` and a read
/// of `reg` that both went through, as the driver's journal records them, and
/// whose bus events ran on the simulated register file one after the other,
/// read back `val`.
pub proof fn lemma_round_trip_in_journal(s: RegisterFileView, reg: u8, val: u8, w: RegOp, r: RegOp)
    requires
        s.regs.len() == 64,
        reg < 64,
        w.valid(),
        r.valid(),
        asks_write(w, reg, val),
        asks_read(r, reg, 1),
        w.ok(),
        r.ok(),
        after_events(s, w.events() + r.events()) is Some,
    ensures
        value(r) == val,
{
    assert(w->Write_data =~= seq![val]);
    lemma_write_then_read(s, reg, val, w.events(), r.events());
}

/// Round trip: on the simulated register file, a register that was written
/// reads back as the value written. `w` and `r` are the bus events of the
/// write of `val` to `reg` and of the read of `reg` that follows it.
pub proof fn lemma_write_then_read(
    s: RegisterFileView,
    reg: u8,
    val: u8,
    w: Seq<BusEvent>,
    r: Seq<BusEvent>,
)
    requires
        s.regs.len() == 64,
        reg < 64,
        is_clean(w, write_outs(reg, seq![val])),
        is_clean(r, read_outs(reg, 1)),
        after_events(s, w + r) is Some,
    ensures
        answer(r, 1) == val,
{
    lemma_after_events_split(s, w, r);
    lemma_write_stores(s, reg, val, w);
    let t = after_events(s, w)->Some_0;
    lemma_read_returns(t, reg, r);
}

} // verus!
