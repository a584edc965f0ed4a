//! The transport to the target and the register access built on it.

use crate::bits::{field, mask, with_field};
use crate::ap::{APClass, APRegister, AccessPort, BaseaddrFormat, DataSize, GenericAP, MemoryAP, BASE, BASE2, CSW, IDR};
use crate::dp::{Abort, Ctrl, DPBankSel, DPRegister, DebugPortVersion, Select, DPIDR};
use crate::error::{DapError, DebugProbeError};
use vstd::prelude::*;

verus! {

/// The port that a transfer addresses: the debug port itself, or one of the
/// access ports behind it.
#[derive(Debug, PartialEq, Eq, Clone, Copy, Structural)]
pub enum PortType {
    DebugPort,
    AccessPort(u16),
}

impl PortType {
    /// The number that stands for the port on the wire; `0xFFFF` is reserved
    /// for the debug port.
    pub open spec fn code(self) -> u16 {
        match self {
            PortType::DebugPort => 0xFFFF,
            PortType::AccessPort(value) => value,
        }
    }

    /// The port that a number on the wire stands for.
    pub open spec fn of_code(value: u16) -> PortType {
        if value == 0xFFFF {
            PortType::DebugPort
        } else {
            PortType::AccessPort(value)
        }
    }
}

impl From<u16> for PortType {
    fn from(value: u16) -> (port: PortType) {
        if value == 0xFFFF {
            PortType::DebugPort
        } else {
            PortType::AccessPort(value)
        }
    }
}

impl vstd::std_specs::convert::FromSpecImpl<u16> for PortType {
    open spec fn obeys_from_spec() -> bool {
        true
    }

    open spec fn from_spec(value: u16) -> Self {
        PortType::of_code(value)
    }
}

impl From<PortType> for u16 {
    fn from(value: PortType) -> (code: u16) {
        match value {
            PortType::DebugPort => 0xFFFF,
            PortType::AccessPort(value) => value,
        }
    }
}

impl vstd::std_specs::convert::FromSpecImpl<PortType> for u16 {
    open spec fn obeys_from_spec() -> bool {
        true
    }

    open spec fn from_spec(value: PortType) -> Self {
        value.code()
    }
}

/// A 32-bit register of the debug port or of an access port.
pub trait Register: Sized + Copy {
    spec fn spec_address() -> u8;

    /// The address of the register within its port.
    fn address() -> (address: u8)
        ensures
            address == Self::spec_address(),
    ;

    spec fn spec_name() -> &'static str;

    /// The name of the register in the architecture manual.
    fn name() -> (name: &'static str)
        ensures
            name == Self::spec_name(),
    ;

    spec fn spec_bits(self) -> u32;

    spec fn spec_from_bits(value: u32) -> Self;

    /// The value of the register as it goes over the wire.
    fn bits(&self) -> (value: u32)
        ensures
            value == self.spec_bits(),
    ;

    /// The register that a value read from the wire stands for.
    fn from_bits(value: u32) -> (register: Self)
        ensures
            register == Self::spec_from_bits(value),
            register.spec_bits() == value,
    ;
}

/// One exchange with the target, with what came of it.
#[derive(Debug, Clone, Copy, PartialEq, Eq)]
pub enum Transfer {
    Read { port: PortType, addr: u16, data: Result<u32, DebugProbeError> },
    Write { port: PortType, addr: u16, value: u32, failure: Option<DebugProbeError> },
    /// A flush of the writes that the probe has batched; it addresses no
    /// register.
    Flush { failure: Option<DebugProbeError> },
}

/// The error of a result, if it is one.
pub open spec fn failure_of<T>(r: Result<T, DebugProbeError>) -> Option<DebugProbeError> {
    match r {
        Ok(_) => None,
        Err(e) => Some(e),
    }
}

impl Transfer {
    /// A read that succeeded and delivered `value`.
    pub open spec fn read(port: PortType, addr: u16, value: u32) -> Transfer {
        Transfer::Read { port, addr, data: Ok(value) }
    }

    /// A write that succeeded.
    pub open spec fn write(port: PortType, addr: u16, value: u32) -> Transfer {
        Transfer::Write { port, addr, value, failure: None }
    }

    /// A flush that succeeded.
    pub open spec fn flush() -> Transfer {
        Transfer::Flush { failure: None }
    }

    /// The error that ended the transfer, if one did.
    pub open spec fn failure(self) -> Option<DebugProbeError> {
        match self {
            Transfer::Read { data: Err(e), .. } => Some(e),
            Transfer::Write { failure: Some(e), .. } => Some(e),
            Transfer::Flush { failure: Some(e) } => Some(e),
            _ => None,
        }
    }

    /// The same transfer, ended by the error `error`.
    pub open spec fn failing(self, error: DebugProbeError) -> Transfer {
        match self {
            Transfer::Read { port, addr, .. } => Transfer::Read { port, addr, data: Err(error) },
            Transfer::Write { port, addr, value, .. } => Transfer::Write {
                port,
                addr,
                value,
                failure: Some(error),
            },
            Transfer::Flush { .. } => Transfer::Flush { failure: Some(error) },
        }
    }

    /// The value that the transfer carried: what a read delivered, or what a
    /// write sent.
    pub open spec fn value(self) -> u32 {
        match self {
            Transfer::Read { data: Ok(value), .. } => value,
            Transfer::Write { value, .. } => value,
            _ => 0,
        }
    }

    /// Whether the transfer writes the SELECT register of the debug port.
    pub open spec fn is_select_write(self) -> bool {
        self matches Transfer::Write { port: PortType::DebugPort, addr: 0x8, .. }
    }

    /// Whether the transfer writes the TAR register of an access port.
    pub open spec fn is_tar_write(self) -> bool {
        self matches Transfer::Write { port: PortType::AccessPort(_), addr: 0x4, .. }
    }
}

/// Whether every transfer of `log` from position `from` on succeeded.
pub open spec fn succeeded(log: Seq<Transfer>, from: int) -> bool {
    forall|i: int| 0 <= i < log.len() && from <= i ==> (#[trigger] log[i]).failure() is None
}

/// Whether the first transfer of `log` from position `from` on that failed,
/// failed with `error`.
pub open spec fn failed_with(log: Seq<Transfer>, from: int, error: DebugProbeError) -> bool {
    exists|k: int|
        {
            &&& 0 <= k < log.len()
            &&& from <= k
            &&& (#[trigger] log[k]).failure() == Some(error)
            &&& succeeded(log.subrange(0, k), from)
        }
}

/// What a block read appends to the history when every transfer succeeds.
pub open spec fn block_reads(port: PortType, addr: u16, values: Seq<u32>) -> Seq<Transfer> {
    Seq::new(values.len(), |i: int| Transfer::read(port, addr, values[i]))
}

/// What a block write appends to the history when every transfer succeeds.
pub open spec fn block_writes(port: PortType, addr: u16, values: Seq<u32>) -> Seq<Transfer> {
    Seq::new(values.len(), |i: int| Transfer::write(port, addr, values[i]))
}

/// A block write of one more value appends one more write.
pub proof fn lemma_block_writes_step(port: PortType, addr: u16, values: Seq<u32>, i: int)
    requires
        0 <= i < values.len(),
    ensures
        block_writes(port, addr, values.subrange(0, i + 1)) == block_writes(
            port,
            addr,
            values.subrange(0, i),
        ).push(Transfer::write(port, addr, values[i])),
{
    assert(block_writes(port, addr, values.subrange(0, i + 1)) =~= block_writes(
        port,
        addr,
        values.subrange(0, i),
    ).push(Transfer::write(port, addr, values[i])));
}

/// A block read of one more value appends one more read.
pub proof fn lemma_block_reads_step(port: PortType, addr: u16, values: Seq<u32>, i: int)
    requires
        0 <= i < values.len(),
    ensures
        block_reads(port, addr, values.subrange(0, i + 1)) == block_reads(
            port,
            addr,
            values.subrange(0, i),
        ).push(Transfer::read(port, addr, values[i])),
{
    assert(block_reads(port, addr, values.subrange(0, i + 1)) =~= block_reads(
        port,
        addr,
        values.subrange(0, i),
    ).push(Transfer::read(port, addr, values[i])));
}

/// A history whose last transfer failed, after nothing but successes from
/// `from` on, has that failure as its first.
pub proof fn lemma_failed_last(log: Seq<Transfer>, from: int, error: DebugProbeError)
    requires
        0 <= from < log.len(),
        log.last().failure() == Some(error),
        succeeded(log.drop_last(), from),
    ensures
        failed_with(log, from, error),
{
    let k = log.len() - 1;
    assert(log[k].failure() == Some(error));
    assert(log.subrange(0, k) =~= log.drop_last());
}

/// A first failure counted from `from` is also the first counted from an
/// earlier position, when everything in between succeeded.
pub proof fn lemma_failed_earlier(
    log: Seq<Transfer>,
    earlier: int,
    from: int,
    error: DebugProbeError,
)
    requires
        failed_with(log, from, error),
        0 <= earlier <= from <= log.len(),
        succeeded(log.subrange(0, from), earlier),
    ensures
        failed_with(log, earlier, error),
{
    let k = choose|k: int|
        {
            &&& 0 <= k < log.len()
            &&& from <= k
            &&& (#[trigger] log[k]).failure() == Some(error)
            &&& succeeded(log.subrange(0, k), from)
        };
    assert forall|i: int| 0 <= i < k && earlier <= i implies (#[trigger] log.subrange(
        0,
        k,
    )[i]).failure() is None by {
        if i < from {
            assert(log.subrange(0, from)[i] == log[i]);
        }
    }
}

/// The history of a plan that broke off at its transfer number `n`: the
/// transfers before it as the plan has them, and that transfer, ended by
/// the error `error`.
pub open spec fn cut(plan: Seq<Transfer>, n: int, error: DebugProbeError) -> Seq<Transfer> {
    plan.subrange(0, n).push(plan[n].failing(error))
}

/// Whether the history grew from `before` to `after` by an operation that
/// followed `plan` up to one of its transfers, which failed with `error`.
pub open spec fn broke_off(
    before: Seq<Transfer>,
    after: Seq<Transfer>,
    plan: Seq<Transfer>,
    error: DebugProbeError,
) -> bool {
    exists|n: int| 0 <= n < plan.len() && after == before + #[trigger] cut(plan, n, error)
}

/// A plan that breaks off in its part `middle` breaks off there whatever
/// stands before and behind that part.
pub proof fn lemma_cut_inside(
    front: Seq<Transfer>,
    middle: Seq<Transfer>,
    back: Seq<Transfer>,
    n: int,
    error: DebugProbeError,
)
    requires
        0 <= n < middle.len(),
    ensures
        cut(front + middle + back, front.len() + n, error) == front + cut(middle, n, error),
{
    assert(cut(front + middle + back, front.len() + n, error) =~= front + cut(middle, n, error));
}

/// An operation that did all of `front` and then broke off within `middle`
/// broke off within the plan that holds both, and `back` behind them.
pub proof fn lemma_broke_off_inside(
    before: Seq<Transfer>,
    after: Seq<Transfer>,
    front: Seq<Transfer>,
    middle: Seq<Transfer>,
    back: Seq<Transfer>,
    error: DebugProbeError,
)
    requires
        broke_off(before + front, after, middle, error),
    ensures
        broke_off(before, after, front + middle + back, error),
{
    let n = choose|n: int|
        0 <= n < middle.len() && after == before + front + #[trigger] cut(middle, n, error);
    lemma_cut_inside(front, middle, back, n, error);
    assert(after =~= before + cut(front + middle + back, front.len() + n, error));
}

/// How a failed access breaks off the plan of the access: at the write of
/// SELECT, or at the transfer `attempt` behind it.
pub proof fn lemma_failed_access_broke_off(
    before: Seq<Transfer>,
    after: Seq<Transfer>,
    selection: Selection,
    access: Access,
    attempt: Transfer,
    error: DebugProbeError,
)
    requires
        failed_access(before, after, selection, access, attempt.failing(error), error),
    ensures
        broke_off(before, after, selection.select_writes(access) + seq![attempt], error),
{
    let plan = selection.select_writes(access) + seq![attempt];
    if selection.needs_write(access) && after == before.push(
        Transfer::Write {
            port: PortType::DebugPort,
            addr: 0x8,
            value: selection.toward(access).value(),
            failure: Some(error),
        },
    ) {
        assert(after =~= before + cut(plan, 0, error));
    } else {
        let n = selection.select_writes(access).len() as int;
        assert(after =~= before + cut(plan, n, error));
    }
}

/// The channel to the target: single and repeated transfers to a register of
/// the debug port or of an access port.
///
/// An implementation keeps, as ghost state, the history of all transfers it
/// has made, flushes among them. A block operation counts as one transfer
/// per value. The
/// history exists for the statements about the code only: nothing that
/// runs ever asks for it.
pub trait DAPAccess {
    /// Every transfer made so far, oldest first.
    spec fn transfers(&self) -> Seq<Transfer>;

    /// Reads the register at `addr` of `port`.
    fn read_register(&mut self, port: PortType, addr: u16) -> (r: Result<u32, DebugProbeError>)
        ensures
            final(self).transfers() == old(self).transfers().push(
                Transfer::Read { port, addr, data: r },
            ),
    ;

    /// Reads the register at `addr` of `port` once for every element of
    /// `values`, in order, and stops at the first failure.
    fn read_block(&mut self, port: PortType, addr: u16, values: &mut [u32]) -> (r: Result<
        (),
        DebugProbeError,
    >)
        ensures
            final(values)@.len() == old(values)@.len(),
            old(self).transfers().is_prefix_of(final(self).transfers()),
            r is Ok ==> final(self).transfers() == old(self).transfers() + block_reads(
                port,
                addr,
                final(values)@,
            ),
            r matches Err(e) ==> failed_with(
                final(self).transfers(),
                old(self).transfers().len() as int,
                e,
            ) && broke_off(
                old(self).transfers(),
                final(self).transfers(),
                block_reads(port, addr, final(values)@),
                e,
            ),
    {
        let mut i: usize = 0;
        while i < values.len()
            invariant
                i <= values@.len(),
                values@.len() == old(values)@.len(),
                self.transfers() == old(self).transfers() + block_reads(
                    port,
                    addr,
                    values@.subrange(0, i as int),
                ),
            decreases values@.len() - i,
        {
            let ghost before = self.transfers();
            match self.read_register(port, addr) {
                Ok(value) => {
                    let ghost earlier = values@;
                    values[i] = value;
                    proof {
                        assert(values@.subrange(0, i as int) =~= earlier.subrange(0, i as int));
                        lemma_block_reads_step(port, addr, values@, i as int);
                    }
                    assert(self.transfers() =~= old(self).transfers() + block_reads(
                        port,
                        addr,
                        values@.subrange(0, i + 1),
                    ));
                },
                Err(e) => {
                    proof {
                        assert(self.transfers().drop_last() =~= before);
                        lemma_failed_last(self.transfers(), old(self).transfers().len() as int, e);
                        assert(self.transfers() =~= old(self).transfers() + cut(
                            block_reads(port, addr, values@),
                            i as int,
                            e,
                        ));
                    }
                    return Err(e);
                },
            }
            i += 1;
        }
        assert(values@.subrange(0, i as int) =~= values@);
        Ok(())
    }

    /// Writes `value` to the register at `addr` of `port`.
    fn write_register(&mut self, port: PortType, addr: u16, value: u32) -> (r: Result<
        (),
        DebugProbeError,
    >)
        ensures
            final(self).transfers() == old(self).transfers().push(
                Transfer::Write { port, addr, value, failure: failure_of(r) },
            ),
    ;

    /// Writes every element of `values`, in order, to the register at `addr`
    /// of `port`, and stops at the first failure.
    fn write_block(&mut self, port: PortType, addr: u16, values: &[u32]) -> (r: Result<
        (),
        DebugProbeError,
    >)
        ensures
            old(self).transfers().is_prefix_of(final(self).transfers()),
            r is Ok ==> final(self).transfers() == old(self).transfers() + block_writes(
                port,
                addr,
                values@,
            ),
            r matches Err(e) ==> failed_with(
                final(self).transfers(),
                old(self).transfers().len() as int,
                e,
            ) && broke_off(
                old(self).transfers(),
                final(self).transfers(),
                block_writes(port, addr, values@),
                e,
            ),
    {
        let mut i: usize = 0;
        while i < values.len()
            invariant
                i <= values@.len(),
                self.transfers() == old(self).transfers() + block_writes(
                    port,
                    addr,
                    values@.subrange(0, i as int),
                ),
            decreases values@.len() - i,
        {
            let ghost before = self.transfers();
            let status = self.write_register(port, addr, values[i]);
            match status {
                Ok(()) => {
                    proof {
                        lemma_block_writes_step(port, addr, values@, i as int);
                    }
                    assert(self.transfers() =~= old(self).transfers() + block_writes(
                        port,
                        addr,
                        values@.subrange(0, i + 1),
                    ));
                },
                Err(e) => {
                    proof {
                        assert(self.transfers().drop_last() =~= before);
                        lemma_failed_last(self.transfers(), old(self).transfers().len() as int, e);
                        assert(self.transfers() =~= old(self).transfers() + cut(
                            block_writes(port, addr, values@),
                            i as int,
                            e,
                        ));
                    }
                    return Err(e);
                },
            }
            i += 1;
        }
        assert(values@.subrange(0, i as int) =~= values@);
        Ok(())
    }

    /// Forces any writes that the probe has batched out to the target, and
    /// reports the first failure among them. The flush is recorded in the
    /// history with what came of it.
    fn flush(&mut self) -> (r: Result<(), DebugProbeError>)
        ensures
            final(self).transfers() == old(self).transfers().push(
                Transfer::Flush { failure: failure_of(r) },
            ),
    ;
}

/// What is known of the SELECT register of the target: the last value
/// written to it, and whether that write went through.
#[derive(Debug, Clone, Copy, PartialEq, Eq, Structural)]
pub struct Selection {
    pub known: bool,
    pub apsel: u8,
    pub apbanksel: u8,
    pub dpbanksel: u8,
}

/// What a register access asks of the SELECT register.
#[derive(Debug, Clone, Copy, PartialEq, Eq, Structural)]
pub enum Access {
    /// An access to the bank `bank` of access port `port`.
    AccessPort { port: u8, bank: u8 },
    /// An access to a debug port register in `bank`.
    DebugPort { dp_bank: DPBankSel },
}

impl Selection {
    /// The value of the SELECT register that the selection stands for.
    pub open spec fn value(self) -> u32 {
        Select::selecting(self.apsel, self.apbanksel, self.dpbanksel)
    }

    /// The selection that `access` needs: the one at hand with the fields
    /// that the access cares about replaced.
    pub open spec fn toward(self, access: Access) -> Selection {
        match access {
            Access::AccessPort { port, bank } => Selection {
                known: true,
                apsel: port,
                apbanksel: bank,
                dpbanksel: self.dpbanksel,
            },
            Access::DebugPort { dp_bank: DPBankSel::Bank(bank) } => Selection {
                known: true,
                apsel: self.apsel,
                apbanksel: self.apbanksel,
                dpbanksel: bank,
            },
            Access::DebugPort { dp_bank: DPBankSel::DontCare } => self,
        }
    }

    /// The same fields, but not known to be in the target.
    pub open spec fn unconfirmed(self) -> Selection {
        Selection { known: false, ..self }
    }

    /// Whether SELECT has to be written before `access`.
    pub open spec fn needs_write(self, access: Access) -> bool {
        self.toward(access) != self
    }

    /// The SELECT writes that precede `access`: one if the selection has to
    /// change, none otherwise.
    pub open spec fn select_writes(self, access: Access) -> Seq<Transfer> {
        if self.needs_write(access) {
            seq![Transfer::write(PortType::DebugPort, 0x8, self.toward(access).value())]
        } else {
            Seq::empty()
        }
    }

    /// The selection after an access that failed, when the access added
    /// `added` transfers to the history: the fields are those that the access
    /// needs, and they are known to be in the target unless it was the write
    /// of SELECT that failed.
    pub open spec fn after_failure(self, access: Access, added: int) -> Selection {
        if added > self.select_writes(access).len() {
            self.toward(access)
        } else {
            self.toward(access).unconfirmed()
        }
    }

    /// The selection that a write of `value` to SELECT leaves, by whether it
    /// went through.
    pub open spec fn written(value: u32, failure: Option<DebugProbeError>) -> Selection {
        Selection {
            known: failure is None,
            apsel: Select(value).spec_ap_sel(),
            apbanksel: Select(value).spec_ap_bank_sel(),
            dpbanksel: Select(value).spec_dp_bank_sel(),
        }
    }
}

/// How the history grows from `before` to `after` when an access fails with
/// `error`: either the write of SELECT that the access needs fails, or that
/// write, if any, succeeds and the transfer `attempt` of the access itself
/// fails.
pub open spec fn failed_access(
    before: Seq<Transfer>,
    after: Seq<Transfer>,
    selection: Selection,
    access: Access,
    attempt: Transfer,
    error: DebugProbeError,
) -> bool {
    ||| selection.needs_write(access) && after == before.push(
        Transfer::Write {
            port: PortType::DebugPort,
            addr: 0x8,
            value: selection.toward(access).value(),
            failure: Some(error),
        },
    )
    ||| attempt.failure() == Some(error) && after == before + selection.select_writes(access)
        + seq![attempt]
}

/// What is known about one access port of the target.
#[derive(Debug, Clone, Copy, PartialEq, Eq, Structural)]
pub enum ApInformation {
    /// A memory access port, which gives access to the memory of the target.
    MemoryAp {
        /// Zero-based number of the access port.
        port_number: u8,
        /// Whether the port transfers 32-bit words only, so that narrower
        /// accesses have to be made from word accesses.
        only_32bit_data_size: bool,
        /// The address of the debug registers or of the ROM table that
        /// describes the debug components behind the port.
        debug_base_address: u64,
    },
    /// An access port of another class.
    Other {
        /// Zero-based number of the access port.
        port_number: u8,
    },
}

impl ApInformation {
    pub open spec fn spec_port_number(&self) -> u8 {
        match *self {
            ApInformation::MemoryAp { port_number, .. } => port_number,
            ApInformation::Other { port_number } => port_number,
        }
    }

    /// The number of the access port that the information is about.
    #[verifier::when_used_as_spec(spec_port_number)]
    pub fn port_number(&self) -> (port: u8)
        ensures
            port == self.spec_port_number(),
    {
        match self {
            ApInformation::MemoryAp { port_number, .. } => *port_number,
            ApInformation::Other { port_number } => *port_number,
        }
    }

    /// The debug base address that BASE and BASE2 describe. In the legacy
    /// format an address of zero without the present flag means that there
    /// is no debug component; the address is then zero. BASE2 counts in the
    /// ADIv5 format only.
    pub open spec fn spec_debug_base(base: BASE, base2: BASE2) -> u64 {
        let low = (base.spec_baseaddr() as u64) << 12;
        match base.spec_format() {
            BaseaddrFormat::ADIv5 => ((base2.0 as u64) << 32) | low,
            BaseaddrFormat::Legacy => low,
        }
    }

    #[verifier::when_used_as_spec(spec_debug_base)]
    pub fn debug_base(base: BASE, base2: BASE2) -> (address: u64)
        ensures
            address == Self::spec_debug_base(base, base2),
    {
        let low: u64 = (base.baseaddr() as u64) << 12;
        match base.format() {
            BaseaddrFormat::ADIv5 => ((base2.0 as u64) << 32) | low,
            BaseaddrFormat::Legacy => low,
        }
    }

    /// Whether BASE points to a debug component at all: in the legacy
    /// format an address of zero without the present flag means that there
    /// is none.
    pub open spec fn spec_component_present(base: BASE) -> bool {
        !(base.spec_format() == BaseaddrFormat::Legacy && base.spec_baseaddr() == 0
            && !base.spec_present())
    }

    #[verifier::when_used_as_spec(spec_component_present)]
    pub fn component_present(base: BASE) -> (present: bool)
        ensures
            present == Self::spec_component_present(base),
    {
        !(base.format() == BaseaddrFormat::Legacy && base.baseaddr() == 0 && !base.present())
    }

    /// Whether the debug base address takes a second register to read.
    pub open spec fn has_base2(base: BASE) -> bool {
        base.spec_format() == BaseaddrFormat::ADIv5
    }

    /// Whether a port shows that it transfers words only: the size field of
    /// CSW did not take the byte width that was written to it.
    pub open spec fn spec_only_32bit(readback: CSW) -> bool {
        readback.spec_size() != DataSize::U8.spec_code()
    }

    #[verifier::when_used_as_spec(spec_only_32bit)]
    pub fn only_32bit(readback: CSW) -> (only: bool)
        ensures
            only == Self::spec_only_32bit(readback),
    {
        readback.size() != DataSize::U8.code()
    }

    /// What the registers of a port say about it. `base`, `base2` and
    /// `readback` count for memory access ports only.
    pub open spec fn spec_from_registers(
        port_number: u8,
        idr: IDR,
        base: BASE,
        base2: BASE2,
        readback: CSW,
    ) -> ApInformation {
        if idr.spec_class() == APClass::MEMAP {
            ApInformation::MemoryAp {
                port_number,
                only_32bit_data_size: Self::spec_only_32bit(readback),
                debug_base_address: Self::spec_debug_base(base, base2),
            }
        } else {
            ApInformation::Other { port_number }
        }
    }

    #[verifier::when_used_as_spec(spec_from_registers)]
    pub fn from_registers(port_number: u8, idr: IDR, base: BASE, base2: BASE2, readback: CSW) -> (info:
        ApInformation)
        ensures
            info == Self::spec_from_registers(port_number, idr, base, base2, readback),
    {
        if idr.class() == APClass::MEMAP {
            ApInformation::MemoryAp {
                port_number,
                only_32bit_data_size: Self::only_32bit(readback),
                debug_base_address: Self::debug_base(base, base2),
            }
        } else {
            ApInformation::Other { port_number }
        }
    }
}

/// What a session remembers about the target between operations.
#[derive(Debug)]
pub struct ArmCommunicationInterfaceState {
    initialized: bool,
    debug_port_version: DebugPortVersion,
    current_dpbanksel: u8,
    current_apsel: u8,
    current_apbanksel: u8,
    select_known: bool,
    /// Information about the access ports of the target, by port number.
    ap_information: Vec<ApInformation>,
}

impl ArmCommunicationInterfaceState {
    /// Whether the power-up handshake and the enumeration have run.
    pub closed spec fn spec_initialized(&self) -> bool {
        self.initialized
    }

    /// The version latched from DPIDR.
    pub closed spec fn version(&self) -> DebugPortVersion {
        self.debug_port_version
    }

    /// What is known of the SELECT register.
    pub closed spec fn selection(&self) -> Selection {
        Selection {
            known: self.select_known,
            apsel: self.current_apsel,
            apbanksel: self.current_apbanksel,
            dpbanksel: self.current_dpbanksel,
        }
    }

    /// The inventory of access ports.
    pub closed spec fn ports(&self) -> Seq<ApInformation> {
        self.ap_information@
    }

    /// Every entry of the inventory stands at the index of its port.
    pub open spec fn wf(&self) -> bool {
        &&& self.ports().len() <= 256
        &&& forall|i: int|
            0 <= i < self.ports().len() ==> (#[trigger] self.ports()[i]).spec_port_number() == i
    }

    /// Whether two states differ in nothing but the selection.
    pub open spec fn same_session(&self, other: Self) -> bool {
        &&& self.spec_initialized() == other.spec_initialized()
        &&& self.version() == other.version()
        &&& self.ports() == other.ports()
    }

    /// The state with the selection replaced.
    pub closed spec fn with_selection(self, selection: Selection) -> Self {
        ArmCommunicationInterfaceState {
            select_known: selection.known,
            current_apsel: selection.apsel,
            current_apbanksel: selection.apbanksel,
            current_dpbanksel: selection.dpbanksel,
            ..self
        }
    }

    /// The state with the version replaced.
    pub closed spec fn with_version(self, version: DebugPortVersion) -> Self {
        ArmCommunicationInterfaceState { debug_port_version: version, ..self }
    }

    /// Replacing the selection changes nothing else.
    pub broadcast proof fn lemma_with_selection(self, selection: Selection)
        ensures
            #![trigger self.with_selection(selection)]
            self.with_selection(selection).selection() == selection,
            self.with_selection(selection).version() == self.version(),
            self.with_selection(selection).spec_initialized() == self.spec_initialized(),
            self.with_selection(selection).ports() == self.ports(),
            self.with_selection(self.selection()) == self,
    {
    }

    /// Replacing the version changes nothing else.
    pub broadcast proof fn lemma_with_version(self, version: DebugPortVersion)
        ensures
            #![trigger self.with_version(version)]
            self.with_version(version).selection() == self.selection(),
            self.with_version(version).version() == version,
            self.with_version(version).spec_initialized() == self.spec_initialized(),
            self.with_version(version).ports() == self.ports(),
    {
    }

    /// The state of a session that has not talked to the target yet: nothing
    /// is known of SELECT, and no register is held back for its version.
    pub fn new() -> (state: Self)
        ensures
            !state.spec_initialized(),
            state.version() == DebugPortVersion::Unsupported(0xFF),
            state.selection() == (Selection { known: false, apsel: 0, apbanksel: 0, dpbanksel: 0 }),
            state.ports() == Seq::<ApInformation>::empty(),
            state.wf(),
    {
        Self {
            initialized: false,
            debug_port_version: DebugPortVersion::Unsupported(0xFF),
            current_dpbanksel: 0,
            current_apsel: 0,
            current_apbanksel: 0,
            select_known: false,
            ap_information: Vec::new(),
        }
    }

    pub(crate) fn initialize(&mut self)
        ensures
            final(self).spec_initialized(),
            final(self).version() == old(self).version(),
            final(self).selection() == old(self).selection(),
            final(self).ports() == old(self).ports(),
    {
        self.initialized = true;
    }

    #[verifier::when_used_as_spec(spec_initialized)]
    pub fn initialized(&self) -> (done: bool)
        ensures
            done == self.spec_initialized(),
    {
        self.initialized
    }

    /// The version of the debug port, as latched from DPIDR.
    pub fn debug_port_version(&self) -> (version: DebugPortVersion)
        ensures
            version == self.version(),
    {
        self.debug_port_version
    }

    /// The number of access ports in the inventory.
    pub fn access_port_count(&self) -> (count: usize)
        ensures
            count == self.ports().len(),
    {
        self.ap_information.len()
    }
}

/// Reads DPIDR and returns the version of the debug port.
pub fn get_debug_port_version<P: DAPAccess>(probe: &mut P) -> (r: Result<
    DebugPortVersion,
    DebugProbeError,
>)
    ensures
        final(probe).transfers().len() == old(probe).transfers().len() + 1,
        final(probe).transfers().drop_last() == old(probe).transfers(),
        final(probe).transfers().last() matches Transfer::Read {
            port: PortType::DebugPort,
            addr: 0,
            data,
        } && r == match data {
            Ok(value) => Ok::<DebugPortVersion, DebugProbeError>(
                DebugPortVersion::of_field(DPIDR(value).spec_version()),
            ),
            Err(e) => Err(e),
        },
{
    let ghost before = probe.transfers();
    let read = probe.read_register(PortType::DebugPort, 0);
    assert(probe.transfers().drop_last() =~= before);
    match read {
        Ok(value) => Ok(DebugPortVersion::from(DPIDR(value).version())),
        Err(e) => Err(e),
    }
}

/// The session with one target: the probe that reaches it, and what is
/// remembered about it.
pub struct ArmCommunicationInterface<P: DAPAccess> {
    probe: P,
    state: ArmCommunicationInterfaceState,
}

impl<P: DAPAccess> ArmCommunicationInterface<P> {
    /// Every transfer that the probe has made so far.
    pub closed spec fn transfers(&self) -> Seq<Transfer> {
        self.probe.transfers()
    }

    /// What the session remembers about the target.
    pub closed spec fn state(&self) -> ArmCommunicationInterfaceState {
        self.state
    }

    /// Borrows the session again, for a user that gives it back when it is
    /// done with it.
    pub fn reborrow(&mut self) -> (session: &mut ArmCommunicationInterface<P>)
        ensures
            *session == *old(self),
            *final(self) == *final(session),
    {
        self
    }

    /// The memory interface that the probe brings along, if it brings one.
    /// A probe that is reached through the registers of the debug port and
    /// the access ports brings none: the memory of the target is reached
    /// through a memory access port.
    pub fn dedicated_memory_interface(&self) -> (r: Result<
        Option<crate::memory::ADIMemoryInterface<P>>,
        DebugProbeError,
    >)
        ensures
            r matches Ok(None),
    {
        Ok(None)
    }

    /// Gives the probe and the state back.
    pub fn release(self) -> (parts: (P, ArmCommunicationInterfaceState))
        ensures
            parts.0.transfers() == self.transfers(),
            parts.1 == self.state(),
    {
        (self.probe, self.state)
    }

    /// Writes SELECT and remembers what was written, and whether it went
    /// through.
    fn write_select(&mut self, apsel: u8, apbanksel: u8, dpbanksel: u8) -> (r: Result<
        (),
        DebugProbeError,
    >)
        ensures
            final(self).transfers() == old(self).transfers().push(
                Transfer::Write {
                    port: PortType::DebugPort,
                    addr: 0x8,
                    value: Select::selecting(apsel, apbanksel, dpbanksel),
                    failure: failure_of(r),
                },
            ),
            final(self).state() == old(self).state().with_selection(
                Selection { known: r is Ok, apsel, apbanksel, dpbanksel },
            ),
    {
        let mut select = Select(0);
        select.set_ap_sel(apsel);
        select.set_ap_bank_sel(apbanksel);
        select.set_dp_bank_sel(dpbanksel);
        self.state.current_apsel = apsel;
        self.state.current_apbanksel = apbanksel;
        self.state.current_dpbanksel = dpbanksel;
        let r = self.probe.write_register(PortType::DebugPort, 0x8, select.0);
        self.state.select_known = r.is_ok();
        r
    }

    /// Makes `port` and `ap_bank` the selected access port and bank, writing
    /// SELECT only if that changes what is selected.
    fn select_ap_and_ap_bank(&mut self, port: u8, ap_bank: u8) -> (r: Result<(), DebugProbeError>)
        ensures
            ({
                let selection = old(self).state().selection();
                let access = Access::AccessPort { port, bank: ap_bank };
                match r {
                    Ok(_) => {
                        &&& final(self).transfers() == old(self).transfers()
                            + selection.select_writes(access)
                        &&& final(self).state() == old(self).state().with_selection(
                            selection.toward(access),
                        )
                    },
                    Err(e) => {
                        &&& final(self).transfers() == old(self).transfers().push(
                            Transfer::Write {
                                port: PortType::DebugPort,
                                addr: 0x8,
                                value: selection.toward(access).value(),
                                failure: Some(e),
                            },
                        )
                        &&& final(self).state() == old(self).state().with_selection(
                            selection.toward(access).unconfirmed(),
                        )
                        &&& selection.needs_write(access)
                    },
                }
            }),
    {
        let changed = !self.state.select_known || self.state.current_apsel != port
            || self.state.current_apbanksel != ap_bank;
        if changed {
            let dp_bank = self.state.current_dpbanksel;
            let r = self.write_select(port, ap_bank, dp_bank);
            proof {
                let selection = old(self).state().selection();
                let access = Access::AccessPort { port, bank: ap_bank };
                assert(old(self).transfers().push(
                    Transfer::write(PortType::DebugPort, 0x8, selection.toward(access).value()),
                ) =~= old(self).transfers() + selection.select_writes(access));
            }
            r
        } else {
            assert(old(self).transfers() + Seq::<Transfer>::empty() =~= old(self).transfers());
            Ok(())
        }
    }

    /// Makes `dp_bank` the selected bank of the debug port, if the register
    /// cares, writing SELECT only if that changes what is selected.
    fn select_dp_bank(&mut self, dp_bank: DPBankSel) -> (r: Result<(), DebugProbeError>)
        ensures
            ({
                let selection = old(self).state().selection();
                let access = Access::DebugPort { dp_bank };
                match r {
                    Ok(_) => {
                        &&& final(self).transfers() == old(self).transfers()
                            + selection.select_writes(access)
                        &&& final(self).state() == old(self).state().with_selection(
                            selection.toward(access),
                        )
                    },
                    Err(e) => {
                        &&& final(self).transfers() == old(self).transfers().push(
                            Transfer::Write {
                                port: PortType::DebugPort,
                                addr: 0x8,
                                value: selection.toward(access).value(),
                                failure: Some(e),
                            },
                        )
                        &&& final(self).state() == old(self).state().with_selection(
                            selection.toward(access).unconfirmed(),
                        )
                        &&& selection.needs_write(access)
                    },
                }
            }),
    {
        match dp_bank {
            DPBankSel::Bank(new_bank) => {
                if !self.state.select_known || new_bank != self.state.current_dpbanksel {
                    let apsel = self.state.current_apsel;
                    let apbanksel = self.state.current_apbanksel;
                    let r = self.write_select(apsel, apbanksel, new_bank);
                    proof {
                        let selection = old(self).state().selection();
                        let access = Access::DebugPort { dp_bank };
                        assert(old(self).transfers().push(
                            Transfer::write(
                                PortType::DebugPort,
                                0x8,
                                selection.toward(access).value(),
                            ),
                        ) =~= old(self).transfers() + selection.select_writes(access));
                    }
                    r
                } else {
                    assert(old(self).transfers() + Seq::<Transfer>::empty() =~= old(
                        self,
                    ).transfers());
                    Ok(())
                }
            },
            DPBankSel::DontCare => {
                assert(old(self).transfers() + Seq::<Transfer>::empty() =~= old(self).transfers());
                Ok(())
            },
        }
    }

    /// Reads the debug port register `R`, after selecting its bank if it has
    /// one. A register that the latched version of the debug port does not
    /// have is refused without a transfer.
    pub fn read_dp_register<R: DPRegister>(&mut self) -> (r: Result<R, DebugProbeError>)
        ensures
            old(self).transfers().is_prefix_of(final(self).transfers()),
            ({
                let state = old(self).state();
                let selection = state.selection();
                let access = Access::DebugPort { dp_bank: R::spec_dp_bank() };
                let added = final(self).transfers().len() - old(self).transfers().len();
                if R::spec_min_version().rank() > state.version().rank() {
                    &&& r == Err::<R, DebugProbeError>(
                        DebugProbeError::UnsupportedRegister {
                            register: R::spec_name(),
                            version: state.version(),
                        },
                    )
                    &&& final(self).transfers() == old(self).transfers()
                    &&& final(self).state() == state
                } else {
                    match r {
                        Ok(register) => {
                            &&& final(self).transfers() == old(self).transfers()
                                + selection.select_writes(access) + seq![
                                Transfer::read(
                                    PortType::DebugPort,
                                    R::spec_address() as u16,
                                    register.spec_bits(),
                                ),
                            ]
                            &&& final(self).state() == state.with_selection(
                                selection.toward(access),
                            )
                        },
                        Err(e) => {
                            &&& failed_with(
                                final(self).transfers(),
                                old(self).transfers().len() as int,
                                e,
                            )
                            &&& failed_access(
                                old(self).transfers(),
                                final(self).transfers(),
                                selection,
                                access,
                                Transfer::Read {
                                    port: PortType::DebugPort,
                                    addr: R::spec_address() as u16,
                                    data: Err(e),
                                },
                                e,
                            )
                            &&& final(self).state() == state.with_selection(
                                selection.after_failure(access, added),
                            )
                        },
                    }
                }
            }),
    {
        if R::min_version().is_newer_than(&self.state.debug_port_version) {
            return Err(
                DebugProbeError::UnsupportedRegister {
                    register: R::name(),
                    version: self.state.debug_port_version,
                },
            );
        }
        let ghost selection = self.state.selection();
        let ghost access = Access::DebugPort { dp_bank: R::spec_dp_bank() };
        let ghost start = self.probe.transfers();
        match self.select_dp_bank(R::dp_bank()) {
            Ok(()) => {},
            Err(e) => {
                proof {
                    assert(self.probe.transfers().drop_last() =~= start);
                    lemma_failed_last(self.probe.transfers(), start.len() as int, e);
                }
                return Err(e);
            },
        }
        let ghost selected = self.probe.transfers();
        match self.probe.read_register(PortType::DebugPort, R::address() as u16) {
            Ok(value) => {
                let register = R::from_bits(value);
                assert(self.probe.transfers() =~= start + selection.select_writes(access) + seq![
                    Transfer::read(PortType::DebugPort, R::spec_address() as u16, register.spec_bits()),
                ]);
                Ok(register)
            },
            Err(e) => {
                proof {
                    assert(self.probe.transfers().drop_last() =~= selected);
                    lemma_failed_last(self.probe.transfers(), start.len() as int, e);
                    assert(self.probe.transfers() =~= start + selection.select_writes(access)
                        + seq![
                        Transfer::Read {
                            port: PortType::DebugPort,
                            addr: R::spec_address() as u16,
                            data: Err(e),
                        },
                    ]);
                }
                Err(e)
            },
        }
    }

    /// Writes the debug port register `R`, after selecting its bank if it
    /// has one. A register that the latched version of the debug port does
    /// not have is refused without a transfer. A write to SELECT itself is
    /// remembered like any other change of the selection.
    pub fn write_dp_register<R: DPRegister>(&mut self, register: R) -> (r: Result<
        (),
        DebugProbeError,
    >)
        ensures
            old(self).transfers().is_prefix_of(final(self).transfers()),
            ({
                let state = old(self).state();
                let selection = state.selection();
                let access = Access::DebugPort { dp_bank: R::spec_dp_bank() };
                let added = final(self).transfers().len() - old(self).transfers().len();
                let written = added > selection.select_writes(access).len();
                if R::spec_min_version().rank() > state.version().rank() {
                    &&& r matches Err(e) && e == (DebugProbeError::UnsupportedRegister {
                        register: R::spec_name(),
                        version: state.version(),
                    })
                    &&& final(self).transfers() == old(self).transfers()
                    &&& final(self).state() == state
                } else {
                    &&& r is Ok ==> final(self).transfers() == old(self).transfers()
                        + selection.select_writes(access) + seq![
                        Transfer::write(
                            PortType::DebugPort,
                            R::spec_address() as u16,
                            register.spec_bits(),
                        ),
                    ]
                    &&& r matches Err(e) ==> failed_with(
                        final(self).transfers(),
                        old(self).transfers().len() as int,
                        e,
                    ) && failed_access(
                        old(self).transfers(),
                        final(self).transfers(),
                        selection,
                        access,
                        Transfer::Write {
                            port: PortType::DebugPort,
                            addr: R::spec_address() as u16,
                            value: register.spec_bits(),
                            failure: Some(e),
                        },
                        e,
                    )
                    &&& final(self).state() == state.with_selection(
                        if written && R::spec_address() == 0x8 {
                            Selection::written(register.spec_bits(), failure_of(r))
                        } else if r is Ok {
                            selection.toward(access)
                        } else {
                            selection.after_failure(access, added)
                        },
                    )
                }
            }),
    {
        if R::min_version().is_newer_than(&self.state.debug_port_version) {
            return Err(
                DebugProbeError::UnsupportedRegister {
                    register: R::name(),
                    version: self.state.debug_port_version,
                },
            );
        }
        let ghost selection = self.state.selection();
        let ghost access = Access::DebugPort { dp_bank: R::spec_dp_bank() };
        let ghost start = self.probe.transfers();
        match self.select_dp_bank(R::dp_bank()) {
            Ok(()) => {},
            Err(e) => {
                proof {
                    assert(self.probe.transfers().drop_last() =~= start);
                    lemma_failed_last(self.probe.transfers(), start.len() as int, e);
                }
                return Err(e);
            },
        }
        let ghost selected = self.probe.transfers();
        let value = register.bits();
        let r = self.probe.write_register(PortType::DebugPort, R::address() as u16, value);
        if R::address() == 0x8 {
            let select = Select(value);
            self.state.current_apsel = select.ap_sel();
            self.state.current_apbanksel = select.ap_bank_sel();
            self.state.current_dpbanksel = select.dp_bank_sel();
            self.state.select_known = r.is_ok();
        }
        proof {
            match r {
                Ok(_) => {
                    assert(self.probe.transfers() =~= start + selection.select_writes(access)
                        + seq![
                        Transfer::write(PortType::DebugPort, R::spec_address() as u16, value),
                    ]);
                },
                Err(e) => {
                    assert(self.probe.transfers().drop_last() =~= selected);
                    lemma_failed_last(self.probe.transfers(), start.len() as int, e);
                    assert(self.probe.transfers() =~= start + selection.select_writes(access)
                        + seq![
                        Transfer::Write {
                            port: PortType::DebugPort,
                            addr: R::spec_address() as u16,
                            value,
                            failure: Some(e),
                        },
                    ]);
                },
            }
        }
        r
    }

    /// Writes the register `R` of the access port `port`, after selecting
    /// the port and the bank of the register if they are not selected.
    pub fn write_ap_register<AP, R>(&mut self, port: AP, register: R) -> (r: Result<
        (),
        DebugProbeError,
    >) where AP: AccessPort, R: APRegister<AP>
        ensures
            old(self).transfers().is_prefix_of(final(self).transfers()),
            ({
                let state = old(self).state();
                let selection = state.selection();
                let number = port.spec_port_number();
                let access = Access::AccessPort { port: number, bank: R::spec_ap_bank_sel() };
                let added = final(self).transfers().len() - old(self).transfers().len();
                match r {
                    Ok(_) => {
                        &&& final(self).transfers() == old(self).transfers()
                            + selection.select_writes(access) + seq![
                            Transfer::write(
                                PortType::AccessPort(number as u16),
                                R::spec_address() as u16,
                                register.spec_bits(),
                            ),
                        ]
                        &&& final(self).state() == state.with_selection(selection.toward(access))
                    },
                    Err(e) => {
                        &&& failed_with(
                            final(self).transfers(),
                            old(self).transfers().len() as int,
                            e,
                        )
                        &&& failed_access(
                            old(self).transfers(),
                            final(self).transfers(),
                            selection,
                            access,
                            Transfer::Write {
                                port: PortType::AccessPort(number as u16),
                                addr: R::spec_address() as u16,
                                value: register.spec_bits(),
                                failure: Some(e),
                            },
                            e,
                        )
                        &&& final(self).state() == state.with_selection(
                            selection.after_failure(access, added),
                        )
                    },
                }
            }),
    {
        let register_value = register.bits();
        let ghost selection = self.state.selection();
        let ghost access = Access::AccessPort { port: port.spec_port_number(), bank: R::spec_ap_bank_sel() };
        let ghost start = self.probe.transfers();
        match self.select_ap_and_ap_bank(port.port_number(), R::ap_bank_sel()) {
            Ok(()) => {},
            Err(e) => {
                proof {
                    assert(self.probe.transfers().drop_last() =~= start);
                    lemma_failed_last(self.probe.transfers(), start.len() as int, e);
                }
                return Err(e);
            },
        }
        let ghost selected = self.probe.transfers();
        let r = self.probe.write_register(
            PortType::AccessPort(self.state.current_apsel as u16),
            R::address() as u16,
            register_value,
        );
        proof {
            match r {
                Ok(_) => {
                    assert(self.probe.transfers() =~= start + selection.select_writes(access)
                        + seq![
                        Transfer::write(
                            PortType::AccessPort(port.spec_port_number() as u16),
                            R::spec_address() as u16,
                            register_value,
                        ),
                    ]);
                },
                Err(e) => {
                    assert(self.probe.transfers().drop_last() =~= selected);
                    lemma_failed_last(self.probe.transfers(), start.len() as int, e);
                    assert(self.probe.transfers() =~= start + selection.select_writes(access)
                        + seq![
                        Transfer::Write {
                            port: PortType::AccessPort(port.spec_port_number() as u16),
                            addr: R::spec_address() as u16,
                            value: register_value,
                            failure: Some(e),
                        },
                    ]);
                },
            }
        }
        r
    }

    /// Writes `values`, in order, to the register `R` of the access port
    /// `port`, after selecting the port and the bank once.
    pub fn write_ap_register_repeated<AP, R>(&mut self, port: AP, _register: R, values: &[u32]) -> (r:
        Result<(), DebugProbeError>) where AP: AccessPort, R: APRegister<AP>
        ensures
            old(self).transfers().is_prefix_of(final(self).transfers()),
            ({
                let state = old(self).state();
                let selection = state.selection();
                let number = port.spec_port_number();
                let access = Access::AccessPort { port: number, bank: R::spec_ap_bank_sel() };
                let added = final(self).transfers().len() - old(self).transfers().len();
                match r {
                    Ok(_) => {
                        &&& final(self).transfers() == old(self).transfers()
                            + selection.select_writes(access) + block_writes(
                            PortType::AccessPort(number as u16),
                            R::spec_address() as u16,
                            values@,
                        )
                        &&& final(self).state() == state.with_selection(selection.toward(access))
                    },
                    Err(e) => {
                        &&& failed_with(
                            final(self).transfers(),
                            old(self).transfers().len() as int,
                            e,
                        )
                        &&& broke_off(
                            old(self).transfers(),
                            final(self).transfers(),
                            selection.select_writes(access) + block_writes(
                                PortType::AccessPort(number as u16),
                                R::spec_address() as u16,
                                values@,
                            ),
                            e,
                        )
                        &&& final(self).state() == state.with_selection(
                            selection.after_failure(access, added),
                        )
                    },
                }
            }),
    {
        let ghost selection = self.state.selection();
        let ghost access = Access::AccessPort { port: port.spec_port_number(), bank: R::spec_ap_bank_sel() };
        let ghost start = self.probe.transfers();
        match self.select_ap_and_ap_bank(port.port_number(), R::ap_bank_sel()) {
            Ok(()) => {},
            Err(e) => {
                proof {
                    assert(self.probe.transfers().drop_last() =~= start);
                    lemma_failed_last(self.probe.transfers(), start.len() as int, e);
                    let plan = selection.select_writes(access) + block_writes(
                        PortType::AccessPort(port.spec_port_number() as u16),
                        R::spec_address() as u16,
                        values@,
                    );
                    assert(self.probe.transfers() =~= start + cut(plan, 0, e));
                }
                return Err(e);
            },
        }
        let ghost selected = self.probe.transfers();
        let r = self.probe.write_block(
            PortType::AccessPort(self.state.current_apsel as u16),
            R::address() as u16,
            values,
        );
        proof {
            match r {
                Ok(_) => {},
                Err(e) => {
                    assert(self.probe.transfers().subrange(0, selected.len() as int)
                        =~= selected);
                    lemma_failed_earlier(
                        self.probe.transfers(),
                        start.len() as int,
                        selected.len() as int,
                        e,
                    );
                    let run = block_writes(
                        PortType::AccessPort(port.spec_port_number() as u16),
                        R::spec_address() as u16,
                        values@,
                    );
                    assert(selected =~= start + selection.select_writes(access));
                    lemma_broke_off_inside(
                        start,
                        self.probe.transfers(),
                        selection.select_writes(access),
                        run,
                        Seq::empty(),
                        e,
                    );
                    assert(selection.select_writes(access) + run + Seq::<Transfer>::empty()
                        =~= selection.select_writes(access) + run);
                },
            }
        }
        r
    }

    /// Reads the register `R` of the access port `port`, after selecting
    /// the port and the bank of the register if they are not selected.
    pub fn read_ap_register<AP, R>(&mut self, port: AP, _register: R) -> (r: Result<
        R,
        DebugProbeError,
    >) where AP: AccessPort, R: APRegister<AP>
        ensures
            old(self).transfers().is_prefix_of(final(self).transfers()),
            ({
                let state = old(self).state();
                let selection = state.selection();
                let number = port.spec_port_number();
                let access = Access::AccessPort { port: number, bank: R::spec_ap_bank_sel() };
                let added = final(self).transfers().len() - old(self).transfers().len();
                match r {
                    Ok(register) => {
                        &&& final(self).transfers() == old(self).transfers()
                            + selection.select_writes(access) + seq![
                            Transfer::read(
                                PortType::AccessPort(number as u16),
                                R::spec_address() as u16,
                                register.spec_bits(),
                            ),
                        ]
                        &&& final(self).state() == state.with_selection(selection.toward(access))
                    },
                    Err(e) => {
                        &&& failed_with(
                            final(self).transfers(),
                            old(self).transfers().len() as int,
                            e,
                        )
                        &&& failed_access(
                            old(self).transfers(),
                            final(self).transfers(),
                            selection,
                            access,
                            Transfer::Read {
                                port: PortType::AccessPort(number as u16),
                                addr: R::spec_address() as u16,
                                data: Err(e),
                            },
                            e,
                        )
                        &&& final(self).state() == state.with_selection(
                            selection.after_failure(access, added),
                        )
                    },
                }
            }),
    {
        let ghost selection = self.state.selection();
        let ghost access = Access::AccessPort { port: port.spec_port_number(), bank: R::spec_ap_bank_sel() };
        let ghost start = self.probe.transfers();
        match self.select_ap_and_ap_bank(port.port_number(), R::ap_bank_sel()) {
            Ok(()) => {},
            Err(e) => {
                proof {
                    assert(self.probe.transfers().drop_last() =~= start);
                    lemma_failed_last(self.probe.transfers(), start.len() as int, e);
                }
                return Err(e);
            },
        }
        let ghost selected = self.probe.transfers();
        match self.probe.read_register(
            PortType::AccessPort(self.state.current_apsel as u16),
            R::address() as u16,
        ) {
            Ok(value) => {
                let register = R::from_bits(value);
                assert(self.probe.transfers() =~= start + selection.select_writes(access) + seq![
                    Transfer::read(
                        PortType::AccessPort(port.spec_port_number() as u16),
                        R::spec_address() as u16,
                        register.spec_bits(),
                    ),
                ]);
                Ok(register)
            },
            Err(e) => {
                proof {
                    assert(self.probe.transfers().drop_last() =~= selected);
                    lemma_failed_last(self.probe.transfers(), start.len() as int, e);
                    assert(self.probe.transfers() =~= start + selection.select_writes(access)
                        + seq![
                        Transfer::Read {
                            port: PortType::AccessPort(port.spec_port_number() as u16),
                            addr: R::spec_address() as u16,
                            data: Err(e),
                        },
                    ]);
                }
                Err(e)
            },
        }
    }

    /// Reads the register `R` of the access port `port` once for every
    /// element of `values`, in order, after selecting the port and the bank
    /// once.
    pub fn read_ap_register_repeated<AP, R>(
        &mut self,
        port: AP,
        _register: R,
        values: &mut [u32],
    ) -> (r: Result<(), DebugProbeError>) where AP: AccessPort, R: APRegister<AP>
        ensures
            old(self).transfers().is_prefix_of(final(self).transfers()),
            final(values)@.len() == old(values)@.len(),
            ({
                let state = old(self).state();
                let selection = state.selection();
                let number = port.spec_port_number();
                let access = Access::AccessPort { port: number, bank: R::spec_ap_bank_sel() };
                let added = final(self).transfers().len() - old(self).transfers().len();
                match r {
                    Ok(_) => {
                        &&& final(self).transfers() == old(self).transfers()
                            + selection.select_writes(access) + block_reads(
                            PortType::AccessPort(number as u16),
                            R::spec_address() as u16,
                            final(values)@,
                        )
                        &&& final(self).state() == state.with_selection(selection.toward(access))
                    },
                    Err(e) => {
                        &&& failed_with(
                            final(self).transfers(),
                            old(self).transfers().len() as int,
                            e,
                        )
                        &&& broke_off(
                            old(self).transfers(),
                            final(self).transfers(),
                            selection.select_writes(access) + block_reads(
                                PortType::AccessPort(number as u16),
                                R::spec_address() as u16,
                                final(values)@,
                            ),
                            e,
                        )
                        &&& final(self).state() == state.with_selection(
                            selection.after_failure(access, added),
                        )
                    },
                }
            }),
    {
        let ghost selection = self.state.selection();
        let ghost access = Access::AccessPort { port: port.spec_port_number(), bank: R::spec_ap_bank_sel() };
        let ghost start = self.probe.transfers();
        match self.select_ap_and_ap_bank(port.port_number(), R::ap_bank_sel()) {
            Ok(()) => {},
            Err(e) => {
                proof {
                    assert(self.probe.transfers().drop_last() =~= start);
                    lemma_failed_last(self.probe.transfers(), start.len() as int, e);
                    let plan = selection.select_writes(access) + block_reads(
                        PortType::AccessPort(port.spec_port_number() as u16),
                        R::spec_address() as u16,
                        values@,
                    );
                    assert(self.probe.transfers() =~= start + cut(plan, 0, e));
                }
                return Err(e);
            },
        }
        let ghost selected = self.probe.transfers();
        let r = self.probe.read_block(
            PortType::AccessPort(self.state.current_apsel as u16),
            R::address() as u16,
            values,
        );
        proof {
            match r {
                Ok(_) => {},
                Err(e) => {
                    assert(self.probe.transfers().subrange(0, selected.len() as int)
                        =~= selected);
                    lemma_failed_earlier(
                        self.probe.transfers(),
                        start.len() as int,
                        selected.len() as int,
                        e,
                    );
                    let run = block_reads(
                        PortType::AccessPort(port.spec_port_number() as u16),
                        R::spec_address() as u16,
                        values@,
                    );
                    assert(selected =~= start + selection.select_writes(access));
                    lemma_broke_off_inside(
                        start,
                        self.probe.transfers(),
                        selection.select_writes(access),
                        run,
                        Seq::empty(),
                        e,
                    );
                    assert(selection.select_writes(access) + run + Seq::<Transfer>::empty()
                        =~= selection.select_writes(access) + run);
                },
            }
        }
        r
    }

    /// Forces any writes that the probe has batched out to the target. The
    /// flush is recorded in the history with what came of it.
    pub fn flush(&mut self) -> (r: Result<(), DebugProbeError>)
        ensures
            final(self).transfers() == old(self).transfers().push(
                Transfer::Flush { failure: failure_of(r) },
            ),
            final(self).state() == old(self).state(),
    {
        self.probe.flush()
    }

    /// What the enumeration found out about the access port, if it found
    /// the port.
    pub fn ap_information(&self, access_port: GenericAP) -> (info: Option<&ApInformation>)
        ensures
            info == if access_port.spec_port_number() < self.state().ports().len() {
                Some(&self.state().ports()[access_port.spec_port_number() as int])
            } else {
                None
            },
    {
        let index = access_port.port_number() as usize;
        if index < self.state.ap_information.len() {
            Some(&self.state.ap_information[index])
        } else {
            None
        }
    }

    /// Powers up the debug domain of the target: reads DPIDR and latches the
    /// version, clears the sticky flags, writes zero to SELECT, requests
    /// system and debug power, and checks that both are acknowledged.
    #[verifier::rlimit(50)]
    fn enter_debug_mode(&mut self) -> (r: Result<(), DebugProbeError>)
        ensures
            old(self).transfers().is_prefix_of(final(self).transfers()),
            final(self).state().ports() == old(self).state().ports(),
            final(self).state().spec_initialized() == old(self).state().spec_initialized(),
            power_up_outcome(old(self).transfers(), final(self).transfers(), r),
            final(self).state() == power_up_state(
                old(self).state(),
                old(self).transfers(),
                final(self).transfers(),
            ),
            r is Ok ==> final(self).state() == old(self).state().with_version(
                latched_version(old(self).transfers(), final(self).transfers()),
            ).with_selection(Selection { known: true, apsel: 0, apbanksel: 0, dpbanksel: 0 }),
    {
        broadcast use ArmCommunicationInterfaceState::lemma_with_selection;
        broadcast use ArmCommunicationInterfaceState::lemma_with_version;

        let ghost start = self.probe.transfers();
        let ghost n = start.len() as int;
        let debug_port_version = match get_debug_port_version(&mut self.probe) {
            Ok(version) => version,
            Err(e) => {
                proof {
                    assert(self.probe.transfers() =~= start + cut(
                        power_up_transfers(self.probe.transfers()[n].value(), 0),
                        0,
                        e,
                    ));
                }
                return Err(e);
            },
        };
        self.state.debug_port_version = debug_port_version;
        let ghost dpidr = self.probe.transfers()[n].value();
        let ghost log1 = self.probe.transfers();
        assert(log1 =~= start + seq![Transfer::read(PortType::DebugPort, 0, dpidr)]);

        // Clear all existing sticky errors.
        match self.write_dp_register(Abort::clearing_all()) {
            Ok(()) => {},
            Err(e) => {
                proof {
                    if DebugPortVersion::DPv1.rank() <= debug_port_version.rank() {
                        assert(self.probe.transfers() =~= start + cut(
                            power_up_transfers(dpidr, 0),
                            1,
                            e,
                        ));
                    }
                }
                return Err(e);
            },
        }
        let ghost log2 = self.probe.transfers();
        assert(log2 =~= log1.push(Transfer::write(PortType::DebugPort, 0x0, Abort::clear_all())));

        // Select bank 0 of the debug port, and access port 0 with it.
        match self.write_dp_register(Select(0)) {
            Ok(()) => {},
            Err(e) => {
                proof {
                    assert(self.probe.transfers() =~= start + cut(
                        power_up_transfers(dpidr, 0),
                        2,
                        e,
                    ));
                }
                return Err(e);
            },
        }
        let ghost log3 = self.probe.transfers();
        proof {
            assert(field(0, 24, 8) == 0 && field(0, 4, 4) == 0 && field(0, 0, 4) == 0)
                by (bit_vector);
            assert(log3 =~= log2.push(Transfer::write(PortType::DebugPort, 0x8, 0)));
        }

        // Power up the system, such that we can actually work with it!
        let mut ctrl_reg = Ctrl(0);
        ctrl_reg.set_csyspwrupreq(true);
        ctrl_reg.set_cdbgpwrupreq(true);
        match self.write_dp_register(ctrl_reg) {
            Ok(()) => {},
            Err(e) => {
                proof {
                    assert(self.probe.transfers() =~= start + cut(
                        power_up_transfers(dpidr, 0),
                        3,
                        e,
                    ));
                }
                return Err(e);
            },
        }
        let ghost log4 = self.probe.transfers();
        assert(log4 =~= log3.push(
            Transfer::write(PortType::DebugPort, 0x4, Ctrl::power_up_request()),
        ));

        // Check the return value to see whether power up was ok.
        let ctrl_reg: Ctrl = match self.read_dp_register::<Ctrl>() {
            Ok(register) => register,
            Err(e) => {
                proof {
                    assert(self.probe.transfers() =~= start + cut(
                        power_up_transfers(dpidr, 0),
                        4,
                        e,
                    ));
                }
                return Err(e);
            },
        };
        assert(self.probe.transfers() =~= start + power_up_transfers(dpidr, ctrl_reg.0));
        if !(ctrl_reg.csyspwrupack() && ctrl_reg.cdbgpwrupack()) {
            return Err(DebugProbeError::ArchitectureSpecific(DapError::TargetPowerUpFailed));
        }
        Ok(())
    }

    /// Walks the access ports from number 0 up, reading IDR of each, and
    /// stops before the first port whose IDR reads as zero or cannot be
    /// read. The ports before it are returned in order.
    #[verifier::rlimit(50)]
    pub fn valid_access_ports(&mut self) -> (ports: Vec<GenericAP>)
        ensures
            old(self).transfers().is_prefix_of(final(self).transfers()),
            final(self).state().same_session(old(self).state()),
            ports@.len() <= 256,
            forall|i: int| 0 <= i < ports@.len() ==> (#[trigger] ports@[i]).spec_port_number() == i,
            walked(
                old(self).state().selection(),
                old(self).transfers(),
                final(self).transfers(),
                final(self).state().selection(),
                ports@.len() as int,
            ),
    {
        broadcast use ArmCommunicationInterfaceState::lemma_with_selection;

        let ghost start = self.probe.transfers();
        let ghost selection = self.state.selection();
        let ghost mut idrs: Seq<u32> = Seq::empty();
        let mut ports: Vec<GenericAP> = Vec::new();
        let mut candidate: u16 = 0;
        proof {
            assert(start + walk_transfers(selection, idrs) =~= start);
        }
        while candidate < 256
            invariant
                candidate <= 256,
                ports@.len() == candidate,
                idrs.len() == candidate,
                start == old(self).transfers(),
                selection == old(self).state().selection(),
                self.transfers() == start + walk_transfers(selection, idrs),
                self.state().selection() == walk_selection(selection, candidate as int),
                self.state().same_session(old(self).state()),
                forall|i: int| 0 <= i < idrs.len() ==> #[trigger] idrs[i] != 0,
                forall|i: int|
                    0 <= i < ports@.len() ==> (#[trigger] ports@[i]).spec_port_number() == i,
            decreases 256 - candidate,
        {
            broadcast use ArmCommunicationInterfaceState::lemma_with_selection;

            let ap = GenericAP::new(candidate as u8);
            let ghost found = self.probe.transfers();
            let ghost access = Access::AccessPort { port: candidate as u8, bank: 0xF };
            let ghost here = walk_selection(selection, candidate as int);
            match self.read_ap_register(ap, IDR::default()) {
                Ok(idr) => {
                    if idr.0 == 0 {
                        proof {
                            assert(found.is_prefix_of(self.probe.transfers()));
                            assert(walk_ended(here, candidate as int, found, self.probe.transfers()));
                        }
                        return ports;
                    }
                    proof {
                        let more = idrs.push(idr.0);
                        assert(more.drop_last() =~= idrs);
                        assert(self.probe.transfers() =~= start + walk_transfers(selection, more));
                        idrs = more;
                    }
                },
                Err(e) => {
                    proof {
                        assert(found.is_prefix_of(self.probe.transfers()));
                        assert(failed_access(
                            found,
                            self.probe.transfers(),
                            here,
                            access,
                            Transfer::Read {
                                port: PortType::AccessPort(candidate),
                                addr: 0xFC,
                                data: Err(e),
                            },
                            e,
                        ));
                    }
                    return ports;
                },
            }
            ports.push(ap);
            candidate += 1;
        }
        proof {
            assert((start + walk_transfers(selection, idrs)).is_prefix_of(self.probe.transfers()));
        }
        ports
    }

    /// Reads the registers that say what an access port is: IDR and, for a
    /// memory access port, BASE, BASE2 where BASE is in the ADIv5 format,
    /// and CSW, to which the byte width is written to see whether it sticks.
    #[verifier::rlimit(50)]
    pub fn survey_port(&mut self, access_port: GenericAP) -> (r: Result<
        PortSurvey,
        DebugProbeError,
    >)
        ensures
            old(self).transfers().is_prefix_of(final(self).transfers()),
            final(self).state().same_session(old(self).state()),
            r matches Ok(survey) ==> exists|registers: PortRegisters|
                {
                    &&& final(self).transfers() == old(self).transfers()
                        + #[trigger] registers.transfers(
                        old(self).state().selection(),
                        access_port.spec_port_number(),
                    )
                    &&& survey.shows(registers)
                    &&& final(self).state().selection() == registers.selection_after(
                        old(self).state().selection(),
                        access_port.spec_port_number(),
                    )
                },
            r matches Err(e) ==> failed_with(
                final(self).transfers(),
                old(self).transfers().len() as int,
                e,
            ) && exists|registers: PortRegisters|
                broke_off(
                    old(self).transfers(),
                    final(self).transfers(),
                    #[trigger] registers.transfers(
                        old(self).state().selection(),
                        access_port.spec_port_number(),
                    ),
                    e,
                ),
    {
        broadcast use ArmCommunicationInterfaceState::lemma_with_selection;

        let ghost start = self.probe.transfers();
        let ghost n = start.len() as int;
        let ghost selection = self.state.selection();
        let ghost number = access_port.spec_port_number();
        let ghost none = Seq::<Transfer>::empty();
        let idr = match self.read_ap_register(access_port, IDR::default()) {
            Ok(idr) => idr,
            Err(e) => {
                proof {
                    let access = Access::AccessPort { port: number, bank: 0xF };
                    let attempt = Transfer::read(PortType::AccessPort(number as u16), 0xFC, 0);
                    lemma_failed_access_broke_off(
                        start,
                        self.probe.transfers(),
                        selection,
                        access,
                        attempt,
                        e,
                    );
                    let registers = PortRegisters { idr: 0, base: 0, base2: 0, csw: 0, readback: 0 };
                    let part = selection.select_writes(access) + seq![attempt];
                    let plan = registers.transfers(selection, number);
                    let back = plan.subrange(part.len() as int, plan.len() as int);
                    assert(start + none =~= start);
                    assert(none + part + back =~= plan);
                    lemma_broke_off_inside(start, self.probe.transfers(), none, part, back, e);
                }
                return Err(e);
            },
        };
        let ghost log1 = self.probe.transfers();
        if idr.class() == APClass::MEMAP {
            let access_port: MemoryAP = MemoryAP::new(access_port.port_number());
            let base_register = match self.read_ap_register(access_port, BASE::default()) {
                Ok(register) => register,
                Err(e) => {
                    proof {
                        assert(self.probe.transfers().subrange(0, log1.len() as int) =~= log1);
                        lemma_failed_earlier(self.probe.transfers(), n, log1.len() as int, e);
                        let access = Access::AccessPort { port: number, bank: 0xF };
                        let attempt = Transfer::read(PortType::AccessPort(number as u16), 0xF8, 0);
                        lemma_failed_access_broke_off(
                            log1,
                            self.probe.transfers(),
                            selection.toward(access),
                            access,
                            attempt,
                            e,
                        );
                        let registers = PortRegisters {
                            idr: idr.0,
                            base: 0,
                            base2: 0,
                            csw: 0,
                            readback: 0,
                        };
                        let front = selection.select_writes(access) + seq![
                            Transfer::read(PortType::AccessPort(number as u16), 0xFC, idr.0),
                        ];
                        let part = selection.toward(access).select_writes(access) + seq![attempt];
                        let plan = registers.transfers(selection, number);
                        let back = plan.subrange((front + part).len() as int, plan.len() as int);
                        assert(log1 =~= start + front);
                        assert(front + part + back =~= plan);
                        lemma_broke_off_inside(start, self.probe.transfers(), front, part, back, e);
                    }
                    return Err(e);
                },
            };
            let ghost log2 = self.probe.transfers();
            assert(log2 =~= log1 + seq![
                Transfer::read(PortType::AccessPort(number as u16), 0xF8, base_register.0),
            ]);
            let base2 = if base_register.format() == BaseaddrFormat::ADIv5 {
                match self.read_ap_register(access_port, BASE2::default()) {
                    Ok(register) => register,
                    Err(e) => {
                        proof {
                            assert(self.probe.transfers().subrange(0, log2.len() as int) =~= log2);
                            lemma_failed_earlier(self.probe.transfers(), n, log2.len() as int, e);
                            let access = Access::AccessPort { port: number, bank: 0xF };
                            let attempt = Transfer::read(
                                PortType::AccessPort(number as u16),
                                0xF0,
                                0,
                            );
                            lemma_failed_access_broke_off(
                                log2,
                                self.probe.transfers(),
                                selection.toward(access),
                                access,
                                attempt,
                                e,
                            );
                            let registers = PortRegisters {
                                idr: idr.0,
                                base: base_register.0,
                                base2: 0,
                                csw: 0,
                                readback: 0,
                            };
                            let front = selection.select_writes(access) + seq![
                                Transfer::read(PortType::AccessPort(number as u16), 0xFC, idr.0),
                                Transfer::read(
                                    PortType::AccessPort(number as u16),
                                    0xF8,
                                    base_register.0,
                                ),
                            ];
                            let part = selection.toward(access).select_writes(access) + seq![
                                attempt,
                            ];
                            let plan = registers.transfers(selection, number);
                            let back = plan.subrange(
                                (front + part).len() as int,
                                plan.len() as int,
                            );
                            assert(log2 =~= start + front);
                            assert(front + part + back =~= plan);
                            lemma_broke_off_inside(
                                start,
                                self.probe.transfers(),
                                front,
                                part,
                                back,
                                e,
                            );
                        }
                        return Err(e);
                    },
                }
            } else {
                BASE2(0)
            };
            let ghost log3 = self.probe.transfers();
            assert(log3 =~= log2 + (if ApInformation::has_base2(base_register) {
                seq![Transfer::read(PortType::AccessPort(number as u16), 0xF0, base2.0)]
            } else {
                Seq::<Transfer>::empty()
            }));
            let ghost selection3 = self.state.selection();
            let only_32bit_data_size = match ap_supports_only_32bit_access(self, access_port) {
                Ok(only) => only,
                Err(e) => {
                    proof {
                        assert(self.probe.transfers().subrange(0, log3.len() as int) =~= log3);
                        lemma_failed_earlier(self.probe.transfers(), n, log3.len() as int, e);
                        let access = Access::AccessPort { port: number, bank: 0 };
                        let (csw, readback) = choose|csw: u32, readback: u32|
                            broke_off(
                                log3,
                                self.probe.transfers(),
                                selection3.select_writes(access) + #[trigger] size_probe_transfers(
                                    number,
                                    csw,
                                    readback,
                                ),
                                e,
                            );
                        let registers = PortRegisters {
                            idr: idr.0,
                            base: base_register.0,
                            base2: base2.0,
                            csw,
                            readback,
                        };
                        let part = selection3.select_writes(access) + size_probe_transfers(
                            number,
                            csw,
                            readback,
                        );
                        let plan = registers.transfers(selection, number);
                        let front = plan.subrange(0, plan.len() - part.len());
                        assert(log3 =~= start + front);
                        assert(front + part + none =~= plan);
                        lemma_broke_off_inside(start, self.probe.transfers(), front, part, none, e);
                    }
                    return Err(e);
                },
            };
            proof {
                let m = log3.len() as int + 1;
                let csw = self.probe.transfers()[m].value();
                let readback = self.probe.transfers()[m + 2].value();
                let registers = PortRegisters {
                    idr: idr.0,
                    base: base_register.0,
                    base2: base2.0,
                    csw,
                    readback,
                };
                assert(self.probe.transfers() =~= start + registers.transfers(selection, number));
            }
            Ok(PortSurvey { idr, base: base_register, base2, only_32bit_data_size })
        } else {
            proof {
                let registers = PortRegisters { idr: idr.0, base: 0, base2: 0, csw: 0, readback: 0 };
                assert(self.probe.transfers() =~= start + registers.transfers(selection, number));
            }
            Ok(PortSurvey { idr, base: BASE(0), base2: BASE2(0), only_32bit_data_size: false })
        }
    }

    /// Reads what the registers of an access port say about it: IDR for its
    /// class and, for a memory access port, the debug base address from
    /// BASE and BASE2 and whether it transfers words only.
    pub fn read_ap_information(&mut self, access_port: GenericAP) -> (r: Result<
        ApInformation,
        DebugProbeError,
    >)
        ensures
            old(self).transfers().is_prefix_of(final(self).transfers()),
            final(self).state().same_session(old(self).state()),
            r matches Ok(info) ==> exists|registers: PortRegisters|
                {
                    &&& final(self).transfers() == old(self).transfers()
                        + #[trigger] registers.transfers(
                        old(self).state().selection(),
                        access_port.spec_port_number(),
                    )
                    &&& info == registers.information(access_port.spec_port_number())
                    &&& final(self).state().selection() == registers.selection_after(
                        old(self).state().selection(),
                        access_port.spec_port_number(),
                    )
                },
            r matches Ok(info) ==> info.spec_port_number() == access_port.spec_port_number(),
            r matches Err(e) ==> failed_with(
                final(self).transfers(),
                old(self).transfers().len() as int,
                e,
            ) && exists|registers: PortRegisters|
                broke_off(
                    old(self).transfers(),
                    final(self).transfers(),
                    #[trigger] registers.transfers(
                        old(self).state().selection(),
                        access_port.spec_port_number(),
                    ),
                    e,
                ),
    {
        match self.survey_port(access_port) {
            Ok(survey) => Ok(survey.information(access_port.port_number())),
            Err(e) => Err(e),
        }
    }

    /// Opens a session with the target behind `probe`. A state that is not
    /// initialized yet is initialized: the debug domain is powered up and
    /// the access ports are enumerated into the inventory. On failure the
    /// error comes back together with the session as far as it got.
    #[verifier::rlimit(50)]
    pub fn new(probe: P, state: ArmCommunicationInterfaceState) -> (r: Result<
        Self,
        (DebugProbeError, Self),
    >)
        requires
            state.wf(),
        ensures
            state.spec_initialized() ==> r is Ok,
            r matches Ok(interface) ==> {
                &&& probe.transfers().is_prefix_of(interface.transfers())
                &&& interface.state().wf()
                &&& interface.state().spec_initialized()
                &&& state.spec_initialized() ==> {
                    &&& interface.transfers() == probe.transfers()
                    &&& interface.state() == state
                }
                &&& !state.spec_initialized() ==> {
                    &&& power_up_outcome(
                        probe.transfers(),
                        interface.transfers().subrange(0, probe.transfers().len() as int + 5),
                        Ok(()),
                    )
                    &&& interface.state().version() == latched_version(
                        probe.transfers(),
                        interface.transfers(),
                    )
                    &&& enumerated(
                        interface.transfers().subrange(0, probe.transfers().len() as int + 5),
                        interface.transfers(),
                        interface.state(),
                    )
                }
            },
            r matches Err((e, interface)) ==> {
                &&& probe.transfers().is_prefix_of(interface.transfers())
                &&& interface.state().wf()
                &&& !interface.state().spec_initialized()
                &&& {
                    ||| {
                        &&& power_up_outcome(probe.transfers(), interface.transfers(), Err(e))
                        &&& interface.state() == power_up_state(
                            state,
                            probe.transfers(),
                            interface.transfers(),
                        )
                    }
                    ||| {
                        &&& interface.state().version() == latched_version(
                            probe.transfers(),
                            interface.transfers(),
                        )
                        &&& exists|from: int|
                            probe.transfers().len() + 5 <= from && #[trigger] failed_with(
                                interface.transfers(),
                                from,
                                e,
                            )
                        &&& inventory_broke_off(
                            interface.transfers().subrange(0, probe.transfers().len() as int + 5),
                            interface.transfers(),
                            interface.state().ports(),
                            e,
                        )
                    }
                }
            },
    {
        broadcast use ArmCommunicationInterfaceState::lemma_with_selection;
        broadcast use ArmCommunicationInterfaceState::lemma_with_version;

        let mut interface = Self { probe, state };
        let ghost start = interface.probe.transfers();
        let ghost n = start.len() as int;
        if !interface.state.initialized() {
            match interface.enter_debug_mode() {
                Ok(()) => {},
                Err(e) => {
                    return Err((e, interface));
                },
            }
            let ghost powered = interface.probe.transfers();
            let ghost version = interface.state.version();
            assert(powered.subrange(0, n + 5) =~= powered);

            /* determine the number and type of available APs */
            interface.state.ap_information.clear();
            let ports = interface.valid_access_ports();
            let ghost walk_end = interface.probe.transfers();
            let ghost last = interface.state.selection();
            let ghost mut registers: Seq<PortRegisters> = Seq::empty();
            proof {
                assert(walk_end + inventory_transfers(last, registers) =~= walk_end);
                assert(interface.state.ap_information@ =~= inventory(registers));
            }
            let mut index: usize = 0;
            while index < ports.len()
                invariant
                    index <= ports@.len() <= 256,
                    registers.len() == index,
                    interface.state.ap_information@ == inventory(registers),
                    interface.transfers() == walk_end + inventory_transfers(last, registers),
                    interface.state().selection() == inventory_selection(last, registers),
                    interface.state().wf(),
                    !interface.state().spec_initialized(),
                    interface.state().version() == version,
                    powered.is_prefix_of(walk_end),
                    powered.is_prefix_of(interface.transfers()),
                    walked(
                        Selection { known: true, apsel: 0, apbanksel: 0, dpbanksel: 0 },
                        powered,
                        walk_end,
                        last,
                        ports@.len() as int,
                    ),
                    version == latched_version(probe.transfers(), powered),
                    powered.len() == n + 5,
                    !state.spec_initialized(),
                    n == probe.transfers().len(),
                    probe.transfers().is_prefix_of(powered),
                    forall|i: int|
                        0 <= i < ports@.len() ==> (#[trigger] ports@[i]).spec_port_number() == i,
                decreases ports@.len() - index,
            {
                let ap = ports[index];
                let ghost before = interface.probe.transfers();
                let ghost selection = interface.state.selection();
                match interface.read_ap_information(ap) {
                    Ok(ap_state) => {
                        interface.state.ap_information.push(ap_state);
                        proof {
                            let found = choose|found: PortRegisters|
                                {
                                    &&& interface.probe.transfers() == before
                                        + #[trigger] found.transfers(selection, index as u8)
                                    &&& ap_state == found.information(index as u8)
                                    &&& interface.state.selection() == found.selection_after(
                                        selection,
                                        index as u8,
                                    )
                                };
                            let more = registers.push(found);
                            assert(more.drop_last() =~= registers);
                            assert(interface.probe.transfers() =~= walk_end + inventory_transfers(
                                last,
                                more,
                            ));
                            assert(interface.state.ap_information@ =~= inventory(more));
                            assert(powered =~= interface.probe.transfers().subrange(
                                0,
                                powered.len() as int,
                            )) by {
                                assert(powered =~= walk_end.subrange(0, powered.len() as int));
                            }
                            registers = more;
                        }
                    },
                    Err(e) => {
                        proof {
                            assert(failed_with(interface.transfers(), before.len() as int, e));
                            assert(powered =~= interface.probe.transfers().subrange(
                                0,
                                powered.len() as int,
                            )) by {
                                assert(powered =~= before.subrange(0, powered.len() as int));
                            }
                            assert(interface.probe.transfers()[n] == powered[n]);
                            let next = choose|next: PortRegisters|
                                broke_off(
                                    before,
                                    interface.probe.transfers(),
                                    #[trigger] next.transfers(selection, index as u8),
                                    e,
                                );
                            assert(interface.probe.transfers().subrange(0, n + 5) =~= powered);
                            assert(broke_off(
                                walk_end + inventory_transfers(last, registers),
                                interface.probe.transfers(),
                                next.transfers(
                                    inventory_selection(last, registers),
                                    registers.len() as u8,
                                ),
                                e,
                            ));
                        }
                        return Err((e, interface));
                    },
                }
                index += 1;
            }
            proof {
                assert(interface.probe.transfers().subrange(0, n + 5) =~= powered);
            }
            interface.state.initialize();
        }
        Ok(interface)
    }
}

/// Checks whether a memory access port transfers words only: writes the
/// byte width to the size field of CSW and looks whether it sticks. If only
/// 32-bit access is supported, the field is read-only and the write has no
/// effect.
pub fn ap_supports_only_32bit_access<P: DAPAccess>(
    interface: &mut ArmCommunicationInterface<P>,
    ap: MemoryAP,
) -> (r: Result<bool, DebugProbeError>)
    ensures
        old(interface).transfers().is_prefix_of(final(interface).transfers()),
        final(interface).state().same_session(old(interface).state()),
        ({
            let selection = old(interface).state().selection();
            let access = Access::AccessPort { port: ap.spec_port_number(), bank: 0 };
            let m = (old(interface).transfers().len() + selection.select_writes(access).len()) as int;
            let log = final(interface).transfers();
            match r {
                Ok(only) => {
                    &&& log == old(interface).transfers() + selection.select_writes(access)
                        + size_probe_transfers(
                        ap.spec_port_number(),
                        log[m].value(),
                        log[m + 2].value(),
                    )
                    &&& only == ApInformation::spec_only_32bit(CSW(log[m + 2].value()))
                    &&& final(interface).state() == old(interface).state().with_selection(
                        selection.toward(access),
                    )
                },
                Err(e) => failed_with(log, old(interface).transfers().len() as int, e)
                    && exists|csw: u32, readback: u32|
                    broke_off(
                        old(interface).transfers(),
                        log,
                        selection.select_writes(access) + #[trigger] size_probe_transfers(
                            ap.spec_port_number(),
                            csw,
                            readback,
                        ),
                        e,
                    ),
            }
        }),
{
    broadcast use ArmCommunicationInterfaceState::lemma_with_selection;

    let ghost start = interface.transfers();
    let ghost n = start.len() as int;
    let ghost selection = interface.state().selection();
    let ghost number = ap.spec_port_number();
    let ghost access = Access::AccessPort { port: ap.spec_port_number(), bank: 0 };
    let ghost none = Seq::<Transfer>::empty();
    let mut csw = match interface.read_ap_register(ap, CSW::default()) {
        Ok(register) => register,
        Err(e) => {
            proof {
                let attempt = Transfer::read(PortType::AccessPort(number as u16), 0x0, 0);
                lemma_failed_access_broke_off(
                    start,
                    interface.transfers(),
                    selection,
                    access,
                    attempt,
                    e,
                );
                let part = selection.select_writes(access) + seq![attempt];
                let plan = selection.select_writes(access) + size_probe_transfers(number, 0, 0);
                let back = plan.subrange(part.len() as int, plan.len() as int);
                assert(start + none =~= start);
                assert(none + part + back =~= plan);
                lemma_broke_off_inside(start, interface.transfers(), none, part, back, e);
            }
            return Err(e);
        },
    };
    let ghost original = csw.0;
    let ghost log1 = interface.transfers();
    csw.set_size(DataSize::U8);
    match interface.write_ap_register(ap, csw) {
        Ok(()) => {},
        Err(e) => {
            proof {
                assert(interface.transfers().subrange(0, log1.len() as int) =~= log1);
                lemma_failed_earlier(interface.transfers(), n, log1.len() as int, e);
                let attempt = Transfer::write(PortType::AccessPort(number as u16), 0x0, csw.0);
                lemma_failed_access_broke_off(
                    log1,
                    interface.transfers(),
                    selection.toward(access),
                    access,
                    attempt,
                    e,
                );
                let front = selection.select_writes(access) + seq![
                    Transfer::read(PortType::AccessPort(number as u16), 0x0, original),
                ];
                let part = selection.toward(access).select_writes(access) + seq![attempt];
                let plan = selection.select_writes(access) + size_probe_transfers(
                    number,
                    original,
                    0,
                );
                let back = plan.subrange((front + part).len() as int, plan.len() as int);
                assert(log1 =~= start + front);
                assert(front + part + back =~= plan);
                lemma_broke_off_inside(start, interface.transfers(), front, part, back, e);
            }
            return Err(e);
        },
    }
    let ghost log2 = interface.transfers();
    let readback = match interface.read_ap_register(ap, CSW::default()) {
        Ok(register) => register,
        Err(e) => {
            proof {
                assert(interface.transfers().subrange(0, log2.len() as int) =~= log2);
                lemma_failed_earlier(interface.transfers(), n, log2.len() as int, e);
                let attempt = Transfer::read(PortType::AccessPort(number as u16), 0x0, 0);
                lemma_failed_access_broke_off(
                    log2,
                    interface.transfers(),
                    selection.toward(access),
                    access,
                    attempt,
                    e,
                );
                let plan = selection.select_writes(access) + size_probe_transfers(
                    number,
                    original,
                    0,
                );
                let front = plan.subrange(0, plan.len() - 1);
                let part = selection.toward(access).select_writes(access) + seq![attempt];
                assert(log2 =~= start + front);
                assert(front + part + none =~= plan);
                lemma_broke_off_inside(start, interface.transfers(), front, part, none, e);
            }
            return Err(e);
        },
    };
    proof {
        assert(interface.transfers() =~= start + selection.select_writes(access)
            + size_probe_transfers(ap.spec_port_number(), original, readback.0));
    }
    Ok(ApInformation::only_32bit(readback))
}

/// The transfers that probe a memory access port for narrow transfers: CSW
/// is read, written back with the byte width in its size field, and read
/// again.
pub open spec fn size_probe_transfers(port: u8, csw: u32, readback: u32) -> Seq<Transfer> {
    seq![
        Transfer::read(PortType::AccessPort(port as u16), 0x0, csw),
        Transfer::write(
            PortType::AccessPort(port as u16),
            0x0,
            with_field(csw, 0, 3, DataSize::U8.spec_code()),
        ),
        Transfer::read(PortType::AccessPort(port as u16), 0x0, readback),
    ]
}

/// The transfers that read what an access port is, when every one of them
/// succeeds: IDR is read after the port and its bank are selected; for a
/// memory access port BASE follows, BASE2 where BASE is in the ADIv5 format,
/// and, after the bank of CSW is selected, the probe for narrow transfers.
pub open spec fn ap_information_transfers(
    selection: Selection,
    port: u8,
    idr: u32,
    base: u32,
    base2: u32,
    csw: u32,
    readback: u32,
) -> Seq<Transfer> {
    let identify = selection.select_writes(Access::AccessPort { port, bank: 0xF }) + seq![
        Transfer::read(PortType::AccessPort(port as u16), 0xFC, idr),
    ];
    if IDR(idr).spec_class() == APClass::MEMAP {
        identify + seq![Transfer::read(PortType::AccessPort(port as u16), 0xF8, base)] + (
        if ApInformation::has_base2(BASE(base)) {
            seq![Transfer::read(PortType::AccessPort(port as u16), 0xF0, base2)]
        } else {
            Seq::<Transfer>::empty()
        }) + seq![
            Transfer::write(
                PortType::DebugPort,
                0x8,
                Select::selecting(port, 0, selection.dpbanksel),
            ),
        ] + size_probe_transfers(port, csw, readback)
    } else {
        identify
    }
}

/// What the registers of one access port said when they were looked at:
/// IDR and, for a memory access port, BASE and BASE2 and whether the size
/// field of CSW refused the byte width.
#[derive(Debug, Clone, Copy, PartialEq, Eq, Structural)]
pub struct PortSurvey {
    pub idr: IDR,
    pub base: BASE,
    pub base2: BASE2,
    pub only_32bit_data_size: bool,
}

impl PortSurvey {
    /// Whether the survey is what registers that read as `registers` show.
    pub open spec fn shows(self, registers: PortRegisters) -> bool {
        &&& self.idr == IDR(registers.idr)
        &&& if self.idr.spec_class() == APClass::MEMAP {
            &&& self.base == BASE(registers.base)
            &&& self.base2 == BASE2(registers.base2)
            &&& self.only_32bit_data_size == ApInformation::spec_only_32bit(
                CSW(registers.readback),
            )
        } else {
            true
        }
    }

    pub open spec fn spec_information(&self, port_number: u8) -> ApInformation {
        if self.idr.spec_class() == APClass::MEMAP {
            ApInformation::MemoryAp {
                port_number,
                only_32bit_data_size: self.only_32bit_data_size,
                debug_base_address: ApInformation::spec_debug_base(self.base, self.base2),
            }
        } else {
            ApInformation::Other { port_number }
        }
    }

    /// What the survey says about port `port_number`.
    #[verifier::when_used_as_spec(spec_information)]
    pub fn information(&self, port_number: u8) -> (info: ApInformation)
        ensures
            info == self.spec_information(port_number),
            info.spec_port_number() == port_number,
            forall|registers: PortRegisters|
                self.shows(registers) ==> info == #[trigger] registers.information(port_number),
    {
        if self.idr.class() == APClass::MEMAP {
            ApInformation::MemoryAp {
                port_number,
                only_32bit_data_size: self.only_32bit_data_size,
                debug_base_address: ApInformation::debug_base(self.base, self.base2),
            }
        } else {
            ApInformation::Other { port_number }
        }
    }
}

/// What the registers of one access port read as when the inventory was
/// taken: IDR and, for a memory access port, BASE, BASE2, CSW, and CSW
/// again after the byte width was written to it.
pub struct PortRegisters {
    pub idr: u32,
    pub base: u32,
    pub base2: u32,
    pub csw: u32,
    pub readback: u32,
}

impl PortRegisters {
    /// What the registers say about port `port`.
    pub open spec fn information(self, port: u8) -> ApInformation {
        ApInformation::spec_from_registers(
            port,
            IDR(self.idr),
            BASE(self.base),
            BASE2(self.base2),
            CSW(self.readback),
        )
    }

    /// The transfers that read the registers of port `port`.
    pub open spec fn transfers(self, selection: Selection, port: u8) -> Seq<Transfer> {
        ap_information_transfers(
            selection,
            port,
            self.idr,
            self.base,
            self.base2,
            self.csw,
            self.readback,
        )
    }

    /// The selection that the reading of the registers of port `port`
    /// leaves: the port, with bank 0 for a memory access port, whose CSW was
    /// read last, and the bank of IDR for any other.
    pub open spec fn selection_after(self, selection: Selection, port: u8) -> Selection {
        Selection {
            known: true,
            apsel: port,
            apbanksel: if IDR(self.idr).spec_class() == APClass::MEMAP {
                0
            } else {
                0xF
            },
            dpbanksel: selection.dpbanksel,
        }
    }
}

/// The selection after the inventory of the ports whose registers read as
/// `registers` was taken.
pub open spec fn inventory_selection(
    selection: Selection,
    registers: Seq<PortRegisters>,
) -> Selection {
    if registers.len() == 0 {
        selection
    } else {
        registers.last().selection_after(selection, (registers.len() - 1) as u8)
    }
}

/// The transfers that take the inventory of the access ports from number 0
/// up, whose registers read as `registers`.
pub open spec fn inventory_transfers(selection: Selection, registers: Seq<PortRegisters>) -> Seq<
    Transfer,
>
    decreases registers.len(),
{
    if registers.len() == 0 {
        Seq::empty()
    } else {
        inventory_transfers(selection, registers.drop_last()) + registers.last().transfers(
            inventory_selection(selection, registers.drop_last()),
            (registers.len() - 1) as u8,
        )
    }
}

/// The inventory of the access ports whose registers read as `registers`.
pub open spec fn inventory(registers: Seq<PortRegisters>) -> Seq<ApInformation> {
    Seq::new(registers.len(), |port: int| registers[port].information(port as u8))
}

/// What the first opening of a session does after the power-up handshake
/// has left the history at `powered`: it walks the access ports, and takes
/// the inventory of those that it found.
pub open spec fn enumerated(
    powered: Seq<Transfer>,
    after: Seq<Transfer>,
    state: ArmCommunicationInterfaceState,
) -> bool {
    exists|walk_end: Seq<Transfer>, last: Selection, count: int, registers: Seq<PortRegisters>|
        #![trigger walked(
            Selection { known: true, apsel: 0, apbanksel: 0, dpbanksel: 0 },
            powered,
            walk_end,
            last,
            count,
        ), inventory_transfers(last, registers)]
        {
            &&& walked(
                Selection { known: true, apsel: 0, apbanksel: 0, dpbanksel: 0 },
                powered,
                walk_end,
                last,
                count,
            )
            &&& registers.len() == count
            &&& after == walk_end + inventory_transfers(last, registers)
            &&& state.ports() == inventory(registers)
            &&& state.selection() == inventory_selection(last, registers)
        }
}

/// How the first opening of a session breaks off with `error` in the
/// inventory, after the power-up handshake has left the history at
/// `powered`: the access ports are walked, the inventory `ports` of the first
/// of them is taken, and the reading of the registers of the next follows
/// its plan up to the transfer that fails with the error.
pub open spec fn inventory_broke_off(
    powered: Seq<Transfer>,
    after: Seq<Transfer>,
    ports: Seq<ApInformation>,
    error: DebugProbeError,
) -> bool {
    exists|
        walk_end: Seq<Transfer>,
        last: Selection,
        count: int,
        registers: Seq<PortRegisters>,
        next: PortRegisters,
    |
        #![trigger walked(
            Selection { known: true, apsel: 0, apbanksel: 0, dpbanksel: 0 },
            powered,
            walk_end,
            last,
            count,
        ), inventory_transfers(last, registers), next.transfers(
            inventory_selection(last, registers),
            registers.len() as u8,
        )]
        {
            &&& walked(
                Selection { known: true, apsel: 0, apbanksel: 0, dpbanksel: 0 },
                powered,
                walk_end,
                last,
                count,
            )
            &&& registers.len() < count
            &&& ports == inventory(registers)
            &&& broke_off(
                walk_end + inventory_transfers(last, registers),
                after,
                next.transfers(inventory_selection(last, registers), registers.len() as u8),
                error,
            )
        }
}

/// The selection that the walk over the access ports finds before it
/// looks at port `port`: the one it started with, or the one that the look
/// at the port before has left.
pub open spec fn walk_selection(selection: Selection, port: int) -> Selection {
    if port == 0 {
        selection
    } else {
        Selection {
            known: true,
            apsel: (port - 1) as u8,
            apbanksel: 0xF,
            dpbanksel: selection.dpbanksel,
        }
    }
}

/// The transfers of a walk over the access ports from number 0 up that
/// reads `idrs` from their IDR registers: each port and the bank of IDR are
/// selected, and IDR is read.
pub open spec fn walk_transfers(selection: Selection, idrs: Seq<u32>) -> Seq<Transfer>
    decreases idrs.len(),
{
    if idrs.len() == 0 {
        Seq::empty()
    } else {
        let port = idrs.len() - 1;
        walk_transfers(selection, idrs.drop_last()) + walk_selection(
            selection,
            port,
        ).select_writes(Access::AccessPort { port: port as u8, bank: 0xF }) + seq![
            Transfer::read(PortType::AccessPort(port as u16), 0xFC, idrs.last()),
        ]
    }
}

/// How the walk over the access ports ends at port `port`, where the
/// history grows from `before` to `after`: IDR of the port reads as zero,
/// or the access to it fails.
pub open spec fn walk_ended(
    selection: Selection,
    port: int,
    before: Seq<Transfer>,
    after: Seq<Transfer>,
) -> bool {
    let access = Access::AccessPort { port: port as u8, bank: 0xF };
    ||| after == before + selection.select_writes(access) + seq![
        Transfer::read(PortType::AccessPort(port as u16), 0xFC, 0),
    ]
    ||| exists|e: DebugProbeError|
        #[trigger] failed_access(
            before,
            after,
            selection,
            access,
            Transfer::Read { port: PortType::AccessPort(port as u16), addr: 0xFC, data: Err(e) },
            e,
        )
}

/// What a walk over the access ports that found `count` of them does to the
/// history and to the selection: it reads a value that is not zero from IDR
/// of each of them, and ends at the port behind them, unless it has walked
/// all 256.
pub open spec fn walked(
    selection: Selection,
    before: Seq<Transfer>,
    after: Seq<Transfer>,
    last: Selection,
    count: int,
) -> bool {
    exists|idrs: Seq<u32>|
        {
            let found = before + #[trigger] walk_transfers(selection, idrs);
            let access = Access::AccessPort { port: count as u8, bank: 0xF };
            &&& idrs.len() == count
            &&& forall|i: int| 0 <= i < idrs.len() ==> #[trigger] idrs[i] != 0
            &&& found.is_prefix_of(after)
            &&& if count == 256 {
                after == found && last == walk_selection(selection, 256)
            } else {
                &&& walk_ended(walk_selection(selection, count), count, found, after)
                &&& last == walk_selection(selection, count).after_failure(
                    access,
                    after.len() - found.len(),
                )
            }
        }
}

/// The transfers of the power-up handshake when every one of them succeeds:
/// DPIDR is read, ABORT clears the sticky flags, SELECT is set to zero, and
/// CTRL/STAT is written with the power-up requests and read back.
pub open spec fn power_up_transfers(dpidr: u32, ctrl: u32) -> Seq<Transfer> {
    seq![
        Transfer::read(PortType::DebugPort, 0x0, dpidr),
        Transfer::write(PortType::DebugPort, 0x0, Abort::clear_all()),
        Transfer::write(PortType::DebugPort, 0x8, 0),
        Transfer::write(PortType::DebugPort, 0x4, Ctrl::power_up_request()),
        Transfer::read(PortType::DebugPort, 0x4, ctrl),
    ]
}

/// The version that the first transfer after `before` reports, taken as a
/// read of DPIDR.
pub open spec fn latched_version(before: Seq<Transfer>, after: Seq<Transfer>) -> DebugPortVersion {
    DebugPortVersion::of_field(DPIDR(after[before.len() as int].value()).spec_version())
}

/// The state that the power-up handshake leaves, however it ends, by the
/// transfers `after` that it added to `before`: the version is latched once
/// DPIDR was read, and the selection is what the write of zero to SELECT
/// made of it, once that write was tried.
pub open spec fn power_up_state(
    state: ArmCommunicationInterfaceState,
    before: Seq<Transfer>,
    after: Seq<Transfer>,
) -> ArmCommunicationInterfaceState {
    let n = before.len() as int;
    if after.len() <= n || after[n].failure() is Some {
        state
    } else {
        let latched = state.with_version(latched_version(before, after));
        if after.len() >= n + 3 {
            latched.with_selection(Selection::written(0, after[n + 2].failure()))
        } else {
            latched
        }
    }
}

/// How the power-up handshake ends, by the transfers `after` that it added
/// to `before`:
/// - it succeeds when every transfer succeeded and CTRL/STAT read back with
///   both acknowledgements;
/// - it fails with `TargetPowerUpFailed` when every transfer succeeded and
///   an acknowledgement is missing;
/// - it fails with `UnsupportedRegister` after the read of DPIDR when the
///   debug port is older than version 1;
/// - otherwise it fails with the error of the transfer at which the
///   handshake broke off, with every transfer before it made as above.
pub open spec fn power_up_outcome(
    before: Seq<Transfer>,
    after: Seq<Transfer>,
    r: Result<(), DebugProbeError>,
) -> bool {
    let n = before.len() as int;
    let version = latched_version(before, after);
    let complete = after.len() == n + 5 && after == before + power_up_transfers(
        after[n].value(),
        after[n + 4].value(),
    );
    match r {
        Ok(_) => complete && Ctrl(after[n + 4].value()).powered_up(),
        Err(e) => {
            ||| broke_off(before, after, power_up_transfers(after[n].value(), 0), e)
            ||| {
                &&& e == (DebugProbeError::UnsupportedRegister { register: Abort::spec_name(), version })
                &&& after == before + seq![
                    Transfer::read(PortType::DebugPort, 0x0, after[n].value()),
                ]
                &&& version.rank() < DebugPortVersion::DPv1.rank()
            }
            ||| {
                &&& e == DebugProbeError::ArchitectureSpecific(DapError::TargetPowerUpFailed)
                &&& complete
                &&& !Ctrl(after[n + 4].value()).powered_up()
            }
        },
    }
}

/// The SELECT writes that a sequence of accesses makes, one access after
/// the other, when every transfer succeeds.
pub open spec fn select_writes_of(selection: Selection, accesses: Seq<Access>) -> Seq<Transfer>
    decreases accesses.len(),
{
    if accesses.len() == 0 {
        Seq::empty()
    } else {
        selection.select_writes(accesses[0]) + select_writes_of(
            selection.toward(accesses[0]),
            accesses.drop_first(),
        )
    }
}

/// The selections that a sequence of accesses needs, in order.
pub open spec fn selections_of(selection: Selection, accesses: Seq<Access>) -> Seq<Selection>
    decreases accesses.len(),
{
    if accesses.len() == 0 {
        Seq::empty()
    } else {
        seq![selection.toward(accesses[0])] + selections_of(
            selection.toward(accesses[0]),
            accesses.drop_first(),
        )
    }
}

/// The number of members of `selections` that differ from the one before
/// them, with `start` before the first.
pub open spec fn changes(start: Selection, selections: Seq<Selection>) -> nat
    decreases selections.len(),
{
    if selections.len() == 0 {
        0
    } else {
        let here: nat = if selections[0] != start {
            1
        } else {
            0
        };
        here + changes(selections[0], selections.drop_first())
    }
}

/// A change of the access port or of its bank: where the port or the bank
/// that an access needs differs from the one selected, the access is
/// preceded by exactly one write, to SELECT, of the port in bits 24 to 31,
/// the bank in bits 4 to 7, and the bank of the debug port as it was in bits
/// 0 to 3; and these are selected from then on.
pub proof fn lemma_select_change(selection: Selection, port: u8, bank: u8)
    requires
        bank <= 0xF,
        selection.dpbanksel <= 0xF,
        selection.apsel != port || selection.apbanksel != bank,
    ensures
        selection.select_writes(Access::AccessPort { port, bank }) == seq![
            Transfer::write(
                PortType::DebugPort,
                0x8,
                ((port as u32) << 24) | ((bank as u32) << 4) | (selection.dpbanksel as u32),
            ),
        ],
        selection.toward(Access::AccessPort { port, bank }) == (Selection {
            known: true,
            apsel: port,
            apbanksel: bank,
            dpbanksel: selection.dpbanksel,
        }),
{
    let p = port as u32;
    let b = bank as u32;
    let d = selection.dpbanksel as u32;
    assert(((((0u32 & !(0xFFu32 << 24)) | ((p & 0xFF) << 24)) & !(0xFu32 << 4)) | ((b & 0xF) << 4))
        & !(0xFu32 << 0) | ((d & 0xF) << 0) == (p << 24) | (b << 4) | d) by (bit_vector)
        requires
            p <= 0xFF,
            b <= 0xF,
            d <= 0xF,
    ;
    assert(mask(8) == 0xFF && mask(4) == 0xF) by {
        assert(u32::MAX >> 24u32 == 0xFFu32 && u32::MAX >> 28u32 == 0xFu32) by (bit_vector);
    }
}

/// SELECT elision: over any sequence of accesses, SELECT is written once
/// for every change of the selection that the accesses need, and not once
/// more; and nothing but SELECT is written to make a selection.
pub proof fn lemma_select_elision(selection: Selection, accesses: Seq<Access>)
    ensures
        select_writes_of(selection, accesses).len() == changes(
            selection,
            selections_of(selection, accesses),
        ),
        forall|i: int|
            0 <= i < select_writes_of(selection, accesses).len() ==> (#[trigger] select_writes_of(
                selection,
                accesses,
            )[i]).is_select_write(),
    decreases accesses.len(),
{
    if accesses.len() > 0 {
        let next = selection.toward(accesses[0]);
        let rest = accesses.drop_first();
        lemma_select_elision(next, rest);
        let needed = selections_of(selection, accesses);
        assert(needed[0] == next);
        assert(needed.drop_first() =~= selections_of(next, rest));
    }
}

} // verus!
