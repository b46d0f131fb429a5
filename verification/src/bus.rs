//! The capability that the driver needs from its surroundings, and the
//! vocabulary in which the driver's contracts describe its use.

use vstd::prelude::*;

verus! {

/// A failed chip-select change or byte exchange.
#[derive(Clone, Copy, Debug, PartialEq, Eq, Structural)]
pub struct BusFault;

/// A full-duplex byte link to the chip, its chip-select line and a way to wait.
///
/// The link answers each byte with the chip's response to the byte before it.
/// The driver makes no assumption about what an implementation returns.
pub trait Bus {
    /// Drives chip-select low: a register transaction starts.
    fn select(&mut self) -> Result<(), BusFault>;

    /// Drives chip-select high: the transaction is over.
    fn release(&mut self) -> Result<(), BusFault>;

    /// Clocks one byte out and returns the byte that came in meanwhile.
    fn exchange(&mut self, out: u8) -> Result<u8, BusFault>;

    /// Waits for the given number of milliseconds.
    fn delay_ms(&mut self, ms: u64);
}

/// One use of the bus, with its outcome.
pub enum BusEvent {
    Select { ok: bool },
    Release { ok: bool },
    Exchange { out: u8, back: Option<u8> },
    Delay { ms: u64 },
}

/// One register transaction as the layers above the transport see it,
/// together with the bus events that made it up.
pub enum RegOp {
    /// `data` was written to `reg`, byte after byte.
    Write { reg: u8, data: Seq<u8>, ok: bool, events: Seq<BusEvent> },
    /// `reg` was read `count` times and the chip delivered `data`.
    /// A failed read records no data.
    Read { reg: u8, count: nat, data: Seq<u8>, ok: bool, events: Seq<BusEvent> },
    /// The driver waited.
    Pause { ms: u64 },
}

/// The address byte of a register access: the index moved up by one bit, with
/// the top bit set for a read.
pub open spec fn address_byte(reg: u8, is_read: bool) -> u8 {
    if is_read {
        (reg << 1) | 0x80
    } else {
        reg << 1
    }
}

/// The bytes that a write of `data` to `reg` clocks out.
pub open spec fn write_outs(reg: u8, data: Seq<u8>) -> Seq<u8> {
    seq![address_byte(reg, false)] + data
}

/// The bytes that `count` reads of `reg` clock out: the address once for each
/// byte wanted, then one zero byte, during which the last answer arrives.
pub open spec fn read_outs(reg: u8, count: nat) -> Seq<u8> {
    Seq::new(count + 1, |i: int| if i < count { address_byte(reg, true) } else { 0u8 })
}

/// `ev` is one transaction that set out to clock `outs`: chip-select goes low,
/// the bytes follow in order for as long as nothing fails, and chip-select is
/// driven high at the end whatever happened before.
pub open spec fn is_transaction(ev: Seq<BusEvent>, outs: Seq<u8>) -> bool {
    let k = ev.len() - 2;
    &&& ev.len() >= 2
    &&& k <= outs.len()
    &&& ev[0] is Select
    &&& ev[ev.len() - 1] is Release
    &&& (k > 0 ==> ev[0]->Select_ok)
    &&& forall|j: int| 1 <= j <= k ==> (#[trigger] ev[j]) is Exchange && ev[j]->out == outs[j - 1]
    &&& forall|j: int| 1 <= j < k ==> (#[trigger] ev[j])->back is Some
    &&& (k < outs.len() ==> !ev[0]->Select_ok || (k > 0 && ev[k]->back is None))
}

/// `ev` is a transaction in which every step succeeded.
pub open spec fn is_clean(ev: Seq<BusEvent>, outs: Seq<u8>) -> bool {
    &&& is_transaction(ev, outs)
    &&& ev.len() == outs.len() + 2
    &&& ev[0]->Select_ok
    &&& ev[ev.len() - 1]->Release_ok
    &&& forall|j: int| 1 <= j <= outs.len() ==> (#[trigger] ev[j])->back is Some
}

/// The byte that came in during the `i`-th exchange of a transaction.
pub open spec fn answer(ev: Seq<BusEvent>, i: int) -> u8 {
    ev[1 + i]->back->0
}

/// How a received byte is laid over the byte already in the buffer when the
/// first `rx_align` bit positions belong to what was there before.
pub open spec fn align_merge(before: u8, received: u8, rx_align: u8) -> u8 {
    if rx_align == 0 {
        received
    } else {
        (before & !(0xFFu8 << rx_align)) | (received & (0xFFu8 << rx_align))
    }
}

impl RegOp {
    /// Whether the transaction went through without a fault.
    pub open spec fn ok(self) -> bool {
        match self {
            RegOp::Write { ok, .. } => ok,
            RegOp::Read { ok, .. } => ok,
            RegOp::Pause { .. } => true,
        }
    }

    /// The bus events of the transaction.
    pub open spec fn events(self) -> Seq<BusEvent> {
        match self {
            RegOp::Write { events, .. } => events,
            RegOp::Read { events, .. } => events,
            RegOp::Pause { ms } => seq![BusEvent::Delay { ms }],
        }
    }

    /// The entry says what its bus events show: they are one transaction
    /// that clocks the bytes of this access; the entry counts as gone
    /// through exactly when every step did; and the data of a read are the
    /// bytes that came in, each one exchange after its address byte.
    pub open spec fn valid(self) -> bool {
        match self {
            RegOp::Write { reg, data, ok, events } => is_transaction(events, write_outs(reg, data))
                && ok == is_clean(events, write_outs(reg, data)),
            RegOp::Read { reg, count, data, ok, events } => count > 0 && is_transaction(
                events,
                read_outs(reg, count),
            ) && ok == is_clean(events, read_outs(reg, count)) && data == (if ok {
                Seq::new(count, |j: int| answer(events, 1 + j))
            } else {
                Seq::empty()
            }),
            RegOp::Pause { .. } => true,
        }
    }
}

/// The bus events of a journal, transaction after transaction.
pub open spec fn flat(journal: Seq<RegOp>) -> Seq<BusEvent>
    decreases journal.len(),
{
    if journal.len() == 0 {
        Seq::empty()
    } else {
        flat(journal.drop_last()) + journal.last().events()
    }
}

/// What a buffer holds after a burst read of `count` bytes whose bus events
/// are `ev`: every byte that came in stands at its place, the first one laid
/// over what was there with respect to `rx_align`; every other byte of the
/// buffer is as it was. The byte for place `j` comes in with the exchange
/// after the one that clocked its address byte.
pub open spec fn stored_by_read(
    before: Seq<u8>,
    ev: Seq<BusEvent>,
    count: nat,
    rx_align: u8,
    after: Seq<u8>,
) -> bool {
    &&& after.len() == before.len()
    &&& forall|j: int|
        0 <= j < before.len() ==> #[trigger] after[j] == (if j < count && 2 + j < ev.len() - 1
            && ev[2 + j] is Exchange && ev[2 + j]->back is Some {
            if j == 0 {
                align_merge(before[0], ev[2]->back->0, rx_align)
            } else {
                ev[2 + j]->back->0
            }
        } else {
            before[j]
        })
}

/// The entry records a write of the single byte `val` to `reg`, whether or
/// not it went through.
pub open spec fn asks_write(op: RegOp, reg: u8, val: u8) -> bool {
    op is Write && op->Write_reg == reg && op->Write_data =~= seq![val]
}

/// The entry records a burst write of `data` to `reg`.
pub open spec fn asks_burst_write(op: RegOp, reg: u8, data: Seq<u8>) -> bool {
    op is Write && op->Write_reg == reg && op->Write_data =~= data
}

/// The entry records a read of `count` bytes from `reg`; it holds that many
/// bytes if the read went through and none if it did not.
pub open spec fn asks_read(op: RegOp, reg: u8, count: nat) -> bool {
    op is Read && op->Read_reg == reg && op->count == count && op->Read_data.len() == (if op.ok() {
        count
    } else {
        0
    })
}

/// The entry records a wait of `ms` milliseconds.
pub open spec fn asks_pause(op: RegOp, ms: u64) -> bool {
    op is Pause && op->ms == ms
}

/// The byte that a single-byte read delivered.
pub open spec fn value(op: RegOp) -> u8 {
    op->Read_data[0]
}

/// No entry of `d` records a fault.
pub open spec fn fault_free(d: Seq<RegOp>) -> bool {
    forall|i: int| 0 <= i < d.len() ==> (#[trigger] d[i]).ok()
}

/// No entry of `d` but possibly the last records a fault: the run ended at the
/// first fault, if there was one.
pub open spec fn stops_at_fault(d: Seq<RegOp>) -> bool {
    forall|i: int| 0 <= i < d.len() - 1 ==> (#[trigger] d[i]).ok()
}

/// `d` is a read of `reg` followed, if the read went through, by a write of
/// `new_val` to the same register.
pub open spec fn is_update(d: Seq<RegOp>, reg: u8, new_val: u8) -> bool {
    &&& 1 <= d.len() <= 2
    &&& asks_read(d[0], reg, 1)
    &&& (d.len() == 2 <==> d[0].ok())
    &&& (d.len() == 2 ==> asks_write(d[1], reg, new_val))
}

/// A fault-free run followed by a run that stops at its first fault is a run
/// that stops at its first fault, and it is fault-free exactly when the
/// second part is.
pub proof fn lemma_run_append(a: Seq<RegOp>, b: Seq<RegOp>)
    requires
        fault_free(a),
        stops_at_fault(b),
    ensures
        stops_at_fault(a + b),
        fault_free(a + b) <==> fault_free(b),
{
    let d = a + b;
    assert forall|i: int| 0 <= i < d.len() - 1 implies (#[trigger] d[i]).ok() by {
        if i >= a.len() {
            assert(d[i] == b[i - a.len()]);
        } else {
            assert(d[i] == a[i]);
        }
    }
    if fault_free(d) {
        assert forall|j: int| 0 <= j < b.len() implies (#[trigger] b[j]).ok() by {
            assert(b[j] == d[a.len() + j]);
        }
    }
    if fault_free(b) {
        assert forall|j: int| 0 <= j < d.len() implies (#[trigger] d[j]).ok() by {
            if j >= a.len() {
                assert(d[j] == b[j - a.len()]);
            } else {
                assert(d[j] == a[j]);
            }
        }
    }
}

} // verus!
